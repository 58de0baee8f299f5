//! Which words a spell check looks at: every run of letters that stands by itself, at its
//! own place and whatever its length; and nothing in inline code.

use vstd::prelude::*;
use vstd::utf8::*;

use crate::filter_laws::spacing;
use crate::highlight;
use crate::highlight_laws::in_name;
use crate::positions;
use crate::spans;
use crate::spell;
use crate::text;
use crate::unicode;
use crate::words;

verus! {

/// ASCII white space.
pub open spec fn ascii_white(c: char) -> bool {
    9 <= c as u32 <= 13 || c as u32 == 32
}

/// What holds a token together at `x`: a letter, a number, or one of `'_-/.` that is not
/// the last character of the line.
pub open spec fn joined(s: Seq<char>, x: int) -> bool {
    ||| unicode::letter(s[x])
    ||| unicode::number(s[x])
    ||| (s[x] == '\'' || s[x] == '_' || s[x] == '-' || s[x] == '/' || s[x] == '.') && x + 1
        < s.len()
}

/// `s[i..j]` hangs together.
pub open spec fn glued(s: Seq<char>, i: int, j: int) -> bool {
    forall|x: int| i <= x < j ==> #[trigger] joined(s, x)
}

/// A token starts at `a` in a stretch that starts at `m`: at a letter that hangs together
/// with none before it.
pub open spec fn begins(s: Seq<char>, m: int, a: int) -> bool {
    &&& m <= a < s.len()
    &&& unicode::letter(s[a])
    &&& forall|k: int| m <= k < a && unicode::letter(#[trigger] s[k]) ==> !glued(s, k, a)
}

/// Letters and apostrophes only.
pub open spec fn lettered(s: Seq<char>, a: int, e: int) -> bool {
    forall|x: int| a <= x < e ==> unicode::letter(#[trigger] s[x]) || s[x] == '\''
}

/// The token at `a` ends at `e`.
pub open spec fn token_to(s: Seq<char>, a: int, e: int) -> bool {
    a < e <= s.len() && glued(s, a, e) && (e == s.len() || !joined(s, e))
}

/// Apostrophes only.
pub open spec fn apostrophes(s: Seq<char>, j: int, e: int) -> bool {
    forall|x: int| j <= x < e ==> #[trigger] s[x] == '\''
}

/// Capital letters inside a word that is not all in capitals.
pub open spec fn mixed_case(s: Seq<char>, a: int, j: int) -> bool {
    &&& exists|k: int| a < k < j && unicode::capital(#[trigger] s[k])
    &&& exists|k: int| a <= k < j && unicode::letter(#[trigger] s[k]) && !unicode::capital(s[k])
}

/// `s[a..j]` is a word to be checked: a token of letters, without the apostrophes at its
/// end, of two characters or more, and in no mixed case.
pub open spec fn is_checked(s: Seq<char>, a: int, j: int) -> bool {
    &&& a + 2 <= j
    &&& s[j - 1] != '\''
    &&& !mixed_case(s, a, j)
    &&& exists|e: int|
        j <= e && #[trigger] token_to(s, a, e) && lettered(s, a, e) && apostrophes(s, j, e)
}

/// The characters of `p` stand at `x`.
pub open spec fn spelled(s: Seq<char>, x: int, p: Seq<char>) -> bool {
    x + p.len() <= s.len() && forall|k: int| 0 <= k < p.len() ==> s[x + k] == #[trigger] p[k]
}

/// An address or a todo keyword starts at `x`.
pub open spec fn passed_over(s: Seq<char>, x: int) -> bool {
    ||| spelled(s, x, "http://"@)
    ||| spelled(s, x, "https://"@)
    ||| spelled(s, x, "ftp://"@)
    ||| spelled(s, x, "file://"@)
    ||| spelled(s, x, "TODO:"@)
    ||| spelled(s, x, "DONE:"@)
}

/// A piece of a line between white space with no code, tag, address or todo keyword in it,
/// which does not start with `[`.
pub open spec fn plain_piece(s: Seq<char>, m: int, z: int) -> bool {
    &&& 0 <= m <= z <= s.len()
    &&& m == 0 || ascii_white(s[m - 1])
    &&& z == s.len() || ascii_white(s[z])
    &&& m < z ==> s[m] != '['
    &&& forall|x: int|
        m <= x < z ==> !ascii_white(#[trigger] s[x]) && s[x] != '#' && s[x] != '`'
            && !passed_over(s, x)
}

/// What stands before `m` leaves no code open there: it has no backticks; or it has no
/// address and an even number of them.
pub open spec fn code_closed(s: Seq<char>, m: int) -> bool {
    ||| forall|x: int| 0 <= x < m ==> #[trigger] s[x] != '`'
    ||| (forall|x: int| 0 <= x < m ==> #[trigger] s[x] != ':') && backticks(s, 0, m) % 2 == 0
}

proof fn lemma_spelled(s: Seq<char>, x: int, p: Seq<char>)
    requires
        0 <= x,
    ensures
        text::occurs_at(s, x, p) == spelled(s, x, p),
{
    if x + p.len() <= s.len() {
        let t = s.subrange(x, x + p.len());
        if spelled(s, x, p) {
            assert(t =~= p);
        }
        if t == p {
            assert forall|k: int| 0 <= k < p.len() implies s[x + k] == #[trigger] p[k] by {
                assert(t[k] == s[x + k]);
            }
        }
    }
}

// ---------------------------------------------------------------------------
// One token
// ---------------------------------------------------------------------------

proof fn lemma_joined(s: Seq<char>, x: int)
    ensures
        joined(s, x) == (unicode::letter_or_number(s[x]) || ((s[x] == '\'' || spell::joiner(s[x]))
            && x + 1 < s.len())),
{
}

proof fn lemma_token_to(s: Seq<char>, i: int)
    requires
        0 <= i < s.len(),
        joined(s, i),
    ensures
        token_to(s, i, spell::token_end(s, i)),
    decreases s.len() - i,
{
    let e = spell::token_end(s, i);
    lemma_joined(s, i);
    if i + 1 < s.len() && joined(s, i + 1) {
        lemma_token_to(s, i + 1);
        assert forall|x: int| i <= x < e implies #[trigger] joined(s, x) by {
            if x > i {
                assert(joined(s, x));
            }
        }
    } else {
        if i + 1 < s.len() {
            lemma_joined(s, i + 1);
        }
        assert(spell::token_end(s, i + 1) == i + 1);
        assert(e == i + 1);
    }
}

proof fn lemma_token_unique(s: Seq<char>, a: int, e: int, f: int)
    requires
        token_to(s, a, e),
        token_to(s, a, f),
    ensures
        e == f,
{
    if e < f {
        assert(joined(s, e));
    } else if f < e {
        assert(joined(s, f));
    }
}

proof fn lemma_trimmed(s: Seq<char>, i: int, j: int)
    requires
        i <= j,
    ensures
        ({
            let e = spell::trim_apostrophes(s, i, j);
            &&& i <= e <= j
            &&& apostrophes(s, e, j)
            &&& e > i ==> s[e - 1] != '\''
        }),
    decreases j - i,
{
    if i < j && s[j - 1] == '\'' {
        lemma_trimmed(s, i, j - 1);
    }
}

proof fn lemma_camel(s: Seq<char>, i: int, j: int)
    ensures
        spell::camel(s, i, j) == mixed_case(s, i, j),
{
    if !spell::all_capitals(s, i, j) {
        let k = choose|k: int|
            i <= k < j && unicode::letter(#[trigger] s[k]) && !unicode::capital(s[k]);
        assert(unicode::letter(s[k]));
    }
}

/// The word of a token, if it is one.
proof fn lemma_checked(s: Seq<char>, i: int, j: int)
    requires
        0 <= i < s.len(),
        unicode::letter(s[i]),
    ensures
        ({
            let e = spell::token_end(s, i);
            is_checked(s, i, j) == (spell::checked_word(s, i, e) && j == spell::trim_apostrophes(
                s,
                i,
                e,
            ))
        }),
{
    let e = spell::token_end(s, i);
    assert(joined(s, i));
    lemma_token_to(s, i);
    lemma_trimmed(s, i, e);
    let t = spell::trim_apostrophes(s, i, e);
    lemma_camel(s, i, j);
    if is_checked(s, i, j) {
        let f = choose|f: int|
            j <= f && #[trigger] token_to(s, i, f) && lettered(s, i, f) && apostrophes(s, j, f);
        lemma_token_unique(s, i, e, f);
        assert(t == j) by {
            if t < j {
                assert(s[j - 1] == '\'');
            } else if t > j {
                assert(s[t - 1] == '\'');
            }
        }
        assert(spell::only_letters(s, i, e));
    }
    if spell::checked_word(s, i, e) && j == t {
        assert(lettered(s, i, e));
        assert(token_to(s, i, e));
    }
}

// ---------------------------------------------------------------------------
// A line
// ---------------------------------------------------------------------------

/// Words come in order, from where the scan starts.
proof fn lemma_words_from(s: Seq<char>, i: int, code: bool)
    requires
        0 <= i,
    ensures
        ({
            let ws = spell::prose_words(s, i, code);
            &&& forall|k: int|
                0 <= k < ws.len() ==> i <= (#[trigger] ws[k]).0 < ws[k].1 <= s.len()
            &&& forall|j: int, k: int|
                0 <= j < k < ws.len() ==> (#[trigger] ws[j]).1 <= (#[trigger] ws[k]).0
        }),
    decreases s.len() - i,
{
    let ws = spell::prose_words(s, i, code);
    if i < s.len() {
        spell::lemma_skips(s, i);
        if s[i] == '`' {
            lemma_words_from(s, i + 1, !code);
            assert(ws == spell::prose_words(s, i + 1, !code));
        } else if code {
            lemma_words_from(s, i + 1, code);
            assert(ws == spell::prose_words(s, i + 1, code));
        } else if spell::is_url(s, i) {
            lemma_words_from(s, spell::next_white(s, i), code);
            assert(ws == spell::prose_words(s, spell::next_white(s, i), code));
        } else if spell::is_tag(s, i) {
            lemma_words_from(s, highlight::tag_stop(s, i + 1), code);
            assert(ws == spell::prose_words(s, highlight::tag_stop(s, i + 1), code));
        } else if spell::is_todo_keyword(s, i) || spell::is_checkbox(s, i) {
            lemma_words_from(s, i + 5, code);
            assert(ws == spell::prose_words(s, i + 5, code));
        } else if !unicode::letter(s[i]) {
            lemma_words_from(s, i + 1, code);
            assert(ws == spell::prose_words(s, i + 1, code));
        } else {
            let e = spell::token_end(s, i);
            lemma_words_from(s, e, code);
            lemma_trimmed(s, i, e);
            let rest = spell::prose_words(s, e, code);
            if spell::checked_word(s, i, e) {
                let w = (i, spell::trim_apostrophes(s, i, e));
                assert(ws =~= seq![w] + rest);
                assert forall|k: int| 0 <= k < ws.len() implies i <= (#[trigger] ws[k]).0 < ws[k].1
                    <= s.len() by {
                    if k > 0 {
                        assert(ws[k] == rest[k - 1]);
                    }
                }
                assert forall|j: int, k: int| 0 <= j < k < ws.len() implies (#[trigger] ws[j]).1
                    <= (#[trigger] ws[k]).0 by {
                    assert(ws[k] == rest[k - 1]);
                    if j > 0 {
                        assert(ws[j] == rest[j - 1]);
                    }
                }
            } else {
                assert(ws == rest);
            }
        }
    } else {
        assert(ws.len() == 0);
    }
}

/// A word that starts before the scan is not found by it.
proof fn lemma_not_before(s: Seq<char>, i: int, w: (int, int))
    requires
        0 <= i,
        w.0 < i,
    ensures
        !spell::prose_words(s, i, false).contains(w),
{
    lemma_words_from(s, i, false);
    let ws = spell::prose_words(s, i, false);
    if ws.contains(w) {
        let k = choose|k: int| 0 <= k < ws.len() && ws[k] == w;
        assert(i <= ws[k].0);
    }
}

/// Nothing is skipped inside a plain piece but a lone dash at its end.
proof fn lemma_no_skip(s: Seq<char>, i: int, m: int, z: int)
    requires
        plain_piece(s, m, z),
        m <= i < z,
    ensures
        !spell::is_url(s, i),
        !spell::is_tag(s, i),
        !spell::is_todo_keyword(s, i),
        spell::is_checkbox(s, i) ==> i + 1 == z && s[i] == '-',
{
    assert(!ascii_white(s[i]));
    assert(!passed_over(s, i));
    lemma_spelled(s, i, "http://"@);
    lemma_spelled(s, i, "https://"@);
    lemma_spelled(s, i, "ftp://"@);
    lemma_spelled(s, i, "file://"@);
    lemma_spelled(s, i, "TODO:"@);
    lemma_spelled(s, i, "DONE:"@);
    reveal_strlit("- [ ]");
    reveal_strlit("- [x]");
    reveal_strlit("- [X]");
    if spell::is_checkbox(s, i) {
        let p = if text::occurs_at(s, i, "- [ ]"@) {
            "- [ ]"@
        } else if text::occurs_at(s, i, "- [x]"@) {
            "- [x]"@
        } else {
            "- [X]"@
        };
        assert(s.subrange(i, i + 5)[0] == p[0] && s.subrange(i, i + 5)[1] == p[1]);
        assert(s[i] == '-' && s[i + 1] == ' ');
        assert(ascii_white(s[i + 1]));
    }
}

/// Text without white space that stands before the white space at `z` ends before it.
proof fn lemma_solid_text(s: Seq<char>, i: int, p: Seq<char>, z: int)
    requires
        0 <= i <= z <= s.len(),
        spelled(s, i, p),
        z < s.len() ==> ascii_white(s[z]),
        forall|x: int| 0 <= x < p.len() ==> !ascii_white(#[trigger] p[x]),
    ensures
        i + p.len() <= z,
{
    if i + p.len() > z {
        assert(s[i + (z - i)] == p[z - i]);
    }
}

/// Where no colon stands before the white space at `z`, no address and no todo keyword
/// starts before it.
proof fn lemma_no_colon(s: Seq<char>, i: int, z: int)
    requires
        0 <= i < z <= s.len(),
        z < s.len() ==> ascii_white(s[z]),
        forall|x: int| i <= x < z ==> #[trigger] s[x] != ':',
    ensures
        !passed_over(s, i),
{
    reveal_strlit("http://");
    reveal_strlit("https://");
    reveal_strlit("ftp://");
    reveal_strlit("file://");
    reveal_strlit("TODO:");
    reveal_strlit("DONE:");
    if spelled(s, i, "http://"@) {
        lemma_solid_text(s, i, "http://"@, z);
        assert(s[i + 4] == "http://"@[4]);
    }
    if spelled(s, i, "https://"@) {
        lemma_solid_text(s, i, "https://"@, z);
        assert(s[i + 5] == "https://"@[5]);
    }
    if spelled(s, i, "ftp://"@) {
        lemma_solid_text(s, i, "ftp://"@, z);
        assert(s[i + 3] == "ftp://"@[3]);
    }
    if spelled(s, i, "file://"@) {
        lemma_solid_text(s, i, "file://"@, z);
        assert(s[i + 4] == "file://"@[4]);
    }
    if spelled(s, i, "TODO:"@) {
        lemma_solid_text(s, i, "TODO:"@, z);
        assert(s[i + 4] == "TODO:"@[4]);
    }
    if spelled(s, i, "DONE:"@) {
        lemma_solid_text(s, i, "DONE:"@, z);
        assert(s[i + 4] == "DONE:"@[4]);
    }
}

/// The words of a plain piece, from `i` on in it.
proof fn lemma_inside(s: Seq<char>, i: int, m: int, z: int, a: int, j: int)
    requires
        plain_piece(s, m, z),
        m <= i <= z,
        i <= a < z,
        forall|k: int| m <= k < i && unicode::letter(#[trigger] s[k]) ==> !glued(s, k, i + 1),
    ensures
        spell::prose_words(s, i, false).contains((a, j)) == (begins(s, m, a) && is_checked(
            s,
            a,
            j,
        )),
    decreases z - i,
{
    let ws = spell::prose_words(s, i, false);
    spell::lemma_skips(s, i);
    lemma_no_skip(s, i, m, z);
    assert(s[i] != '`');
    if spell::is_checkbox(s, i) {
        assert(a == i);
        assert(ws == spell::prose_words(s, i + 5, false));
        lemma_not_before(s, i + 5, (a, j));
        assert(!unicode::letter(s[a]));
    } else if !unicode::letter(s[i]) {
        assert(ws == spell::prose_words(s, i + 1, false));
        if a == i {
            lemma_not_before(s, i + 1, (a, j));
        } else {
            assert forall|k: int| m <= k < i + 1 && unicode::letter(#[trigger] s[k]) implies !glued(
                s,
                k,
                i + 2,
            ) by {
                assert(!glued(s, k, i + 1));
                if glued(s, k, i + 2) {
                    assert(glued(s, k, i + 1)) by {
                        assert forall|x: int| k <= x < i + 1 implies #[trigger] joined(s, x) by {
                            assert(joined(s, x));
                        }
                    }
                }
            }
            lemma_inside(s, i + 1, m, z, a, j);
        }
    } else {
        assert(joined(s, i));
        let e = spell::token_end(s, i);
        lemma_token_to(s, i);
        assert(e <= z) by {
            if e > z {
                assert(joined(s, z));
                assert(ascii_white(s[z]));
                lemma_white_apart(s, z);
            }
        }
        lemma_trimmed(s, i, e);
        let rest = spell::prose_words(s, e, false);
        let w = (i, spell::trim_apostrophes(s, i, e));
        lemma_checked(s, i, j);
        if spell::checked_word(s, i, e) {
            assert(ws =~= seq![w] + rest);
            assert(ws.contains((a, j)) == ((a, j) == w || rest.contains((a, j)))) by {
                if rest.contains((a, j)) {
                    let k = choose|k: int| 0 <= k < rest.len() && rest[k] == (a, j);
                    assert(ws[k + 1] == (a, j));
                }
                if (a, j) == w {
                    assert(ws[0] == w);
                }
                if ws.contains((a, j)) && (a, j) != w {
                    let k = choose|k: int| 0 <= k < ws.len() && ws[k] == (a, j);
                    assert(rest[k - 1] == (a, j));
                }
            }
        } else {
            assert(ws == rest);
        }
        if a == i {
            lemma_not_before(s, e, (a, j));
            assert(begins(s, m, i)) by {
                assert forall|k: int| m <= k < i && unicode::letter(#[trigger] s[k]) implies !glued(
                    s,
                    k,
                    i,
                ) by {
                    if glued(s, k, i) {
                        assert forall|x: int| k <= x < i + 1 implies #[trigger] joined(s, x) by {
                            if x < i {
                                assert(joined(s, x));
                            }
                        }
                        assert(glued(s, k, i + 1));
                    }
                }
            }
        } else if a < e {
            lemma_not_before(s, e, (a, j));
            assert(glued(s, i, a)) by {
                assert forall|x: int| i <= x < a implies #[trigger] joined(s, x) by {
                    assert(joined(s, x));
                }
            }
            assert(!begins(s, m, a));
        } else {
            assert(e < z);
            assert(!joined(s, e));
            assert forall|k: int| m <= k < e && unicode::letter(#[trigger] s[k]) implies !glued(
                s,
                k,
                e + 1,
            ) by {
                if glued(s, k, e + 1) {
                    assert(joined(s, e));
                }
            }
            lemma_inside(s, e, m, z, a, j);
        }
    }
}

/// White space holds no token together.
proof fn lemma_white_apart(s: Seq<char>, x: int)
    requires
        ascii_white(s[x]),
    ensures
        !joined(s, x),
{
}

/// The scan comes to a plain piece, whatever stands before it on the line.
proof fn lemma_outside(s: Seq<char>, i: int, code: bool, m: int, z: int, a: int, j: int)
    requires
        plain_piece(s, m, z),
        0 <= i <= m,
        m <= a < z,
        code == (backticks(s, i, m) % 2 == 1),
        (forall|x: int| i <= x < m ==> #[trigger] s[x] != '`') || (forall|x: int|
            i <= x < m ==> #[trigger] s[x] != ':'),
    ensures
        spell::prose_words(s, i, code).contains((a, j)) == (begins(s, m, a) && is_checked(
            s,
            a,
            j,
        )),
    decreases m - i,
{
    if i == m {
        assert(backticks(s, m, m) == 0);
        lemma_inside(s, m, m, z, a, j);
    } else if s[i] == '`' || code {
        let c = if s[i] == '`' {
            !code
        } else {
            code
        };
        assert(spell::prose_words(s, i, code) == spell::prose_words(s, i + 1, c));
        lemma_backticks_split(s, i, i + 1, m);
        assert(backticks(s, i, i) == 0);
        lemma_outside(s, i + 1, c, m, z, a, j);
    } else {
        let ws = spell::prose_words(s, i, false);
        spell::lemma_skips(s, i);
        assert(ascii_white(s[m - 1]));
        lemma_white_apart(s, m - 1);
        lemma_skip_holds_no_tick(s, i);
        if !(forall|x: int| i <= x < m ==> #[trigger] s[x] != '`') {
            if i < m - 1 {
                lemma_no_colon(s, i, m - 1);
            } else {
                lemma_white_passes(s, i);
            }
        }
        lemma_spelled(s, i, "http://"@);
        lemma_spelled(s, i, "https://"@);
        lemma_spelled(s, i, "ftp://"@);
        lemma_spelled(s, i, "file://"@);
        lemma_spelled(s, i, "TODO:"@);
        lemma_spelled(s, i, "DONE:"@);
        if spell::is_url(s, i) {
            let e = spell::next_white(s, i);
            lemma_next_white(s, i, m - 1);
            lemma_no_backticks(s, i, m);
            lemma_no_backticks(s, e, m);
            lemma_outside(s, e, false, m, z, a, j);
        } else if spell::is_tag(s, i) {
            assert(s[i] == '#');
            lemma_tag_stop(s, i + 1, m - 1);
            let e = highlight::tag_stop(s, i + 1);
            lemma_no_backticks(s, i, e);
            lemma_backticks_split(s, i, e, m);
            lemma_outside(s, e, false, m, z, a, j);
        } else if spell::is_todo_keyword(s, i) {
            reveal_strlit("TODO:");
            reveal_strlit("DONE:");
            let p = if text::occurs_at(s, i, "TODO:"@) {
                "TODO:"@
            } else {
                "DONE:"@
            };
            if m - 1 < i + 5 {
                assert(s.subrange(i, i + 5)[m - 1 - i] == p[m - 1 - i]);
            }
            lemma_no_backticks(s, i, m);
            lemma_no_backticks(s, i + 5, m);
            lemma_outside(s, i + 5, false, m, z, a, j);
        } else if spell::is_checkbox(s, i) {
            if i + 5 <= m {
                lemma_no_backticks(s, i, i + 5);
                lemma_backticks_split(s, i, i + 5, m);
                lemma_outside(s, i + 5, false, m, z, a, j);
            } else {
                lemma_box_end(s, i, m, z);
                assert(ws == spell::prose_words(s, m + 1, false));
                if a == m {
                    lemma_not_before(s, m + 1, (a, j));
                } else {
                    lemma_inside(s, m + 1, m, z, a, j);
                }
            }
        } else if !unicode::letter(s[i]) {
            lemma_backticks_split(s, i, i + 1, m);
            assert(backticks(s, i, i) == 0);
            lemma_outside(s, i + 1, false, m, z, a, j);
        } else {
            let e = spell::token_end(s, i);
            assert(joined(s, i));
            lemma_token_to(s, i);
            assert(e <= m - 1) by {
                if e > m - 1 {
                    assert(joined(s, m - 1));
                }
            }
            lemma_no_backticks(s, i, e);
            lemma_backticks_split(s, i, e, m);
            lemma_outside(s, e, false, m, z, a, j);
            let rest = spell::prose_words(s, e, false);
            if spell::checked_word(s, i, e) {
                let w = (i, spell::trim_apostrophes(s, i, e));
                assert(ws =~= seq![w] + rest);
                if rest.contains((a, j)) {
                    let k = choose|k: int| 0 <= k < rest.len() && rest[k] == (a, j);
                    assert(ws[k + 1] == (a, j));
                }
                if ws.contains((a, j)) {
                    let k = choose|k: int| 0 <= k < ws.len() && ws[k] == (a, j);
                    assert(k > 0);
                    assert(rest[k - 1] == (a, j));
                }
            }
        }
    }
}

/// White space starts nothing.
proof fn lemma_white_passes(s: Seq<char>, i: int)
    requires
        ascii_white(s[i]),
    ensures
        !passed_over(s, i),
{
    reveal_strlit("http://");
    reveal_strlit("https://");
    reveal_strlit("ftp://");
    reveal_strlit("file://");
    reveal_strlit("TODO:");
    reveal_strlit("DONE:");
    if passed_over(s, i) {
        let p = if spelled(s, i, "http://"@) {
            "http://"@
        } else if spelled(s, i, "https://"@) {
            "https://"@
        } else if spelled(s, i, "ftp://"@) {
            "ftp://"@
        } else if spelled(s, i, "file://"@) {
            "file://"@
        } else if spelled(s, i, "TODO:"@) {
            "TODO:"@
        } else {
            "DONE:"@
        };
        assert(s[i + 0] == p[0]);
    }
}

/// A box that reaches past the start of a plain piece ends behind its first character.
proof fn lemma_box_end(s: Seq<char>, i: int, m: int, z: int)
    requires
        plain_piece(s, m, z),
        i < m < i + 5,
        m < z,
        spell::is_checkbox(s, i),
    ensures
        m == i + 4,
        s[m] == ']',
{
    reveal_strlit("- [ ]");
    reveal_strlit("- [x]");
    reveal_strlit("- [X]");
    let p = if text::occurs_at(s, i, "- [ ]"@) {
        "- [ ]"@
    } else if text::occurs_at(s, i, "- [x]"@) {
        "- [x]"@
    } else {
        "- [X]"@
    };
    assert(s.subrange(i, i + 5) == p);
    assert(s.subrange(i, i + 5)[0] == s[i] && s.subrange(i, i + 5)[1] == s[i + 1]);
    assert(s.subrange(i, i + 5)[2] == s[i + 2] && s.subrange(i, i + 5)[3] == s[i + 3]);
    assert(s.subrange(i, i + 5)[4] == s[i + 4]);
    assert(s[m] != '[');
}

proof fn lemma_next_white(s: Seq<char>, i: int, x: int)
    requires
        0 <= i <= x < s.len(),
        ascii_white(s[x]),
    ensures
        spell::next_white(s, i) <= x,
    decreases x - i,
{
    if i < x && !words::is_white(s[i]) {
        lemma_next_white(s, i + 1, x);
    }
}

proof fn lemma_tag_stop(s: Seq<char>, i: int, x: int)
    requires
        0 <= i <= x < s.len(),
        ascii_white(s[x]),
    ensures
        highlight::tag_stop(s, i) <= x,
    decreases x - i,
{
    if i < x && highlight::is_tag_char(s[i]) {
        lemma_tag_stop(s, i + 1, x);
    }
}

/// The words to be checked in a piece of a line between white space, with no code, tag,
/// address or todo keyword in it, are its tokens of letters: each whole, at its place,
/// however long it is and whatever stands before and behind it, and no others.
pub proof fn law_words_of_piece(s: Seq<char>, m: int, z: int, a: int, j: int)
    requires
        plain_piece(s, m, z),
        code_closed(s, m),
        m <= a < z,
    ensures
        spell::prose_words(s, 0, false).contains((a, j)) <==> begins(s, m, a) && is_checked(
            s,
            a,
            j,
        ),
{
    if forall|x: int| 0 <= x < m ==> #[trigger] s[x] != '`' {
        lemma_no_backticks(s, 0, m);
    }
    lemma_outside(s, 0, false, m, z, a, j);
}

/// Two or more small letters between white space are a word to be checked, unless inline
/// code is open before them.
pub proof fn law_small_word_is_checked(s: Seq<char>, m: int, z: int)
    requires
        0 <= m,
        m + 2 <= z <= s.len(),
        m == 0 || ascii_white(s[m - 1]),
        z == s.len() || ascii_white(s[z]),
        forall|x: int| m <= x < z ==> 'a' <= #[trigger] s[x] <= 'z',
        code_closed(s, m),
    ensures
        spell::prose_words(s, 0, false).contains((m, z)),
{
    assert('a' <= s[m] <= 'z');
    assert forall|x: int| m <= x < z implies !ascii_white(#[trigger] s[x]) && s[x] != '#' && s[x]
        != '`' && !passed_over(s, x) by {
        assert('a' <= s[x] <= 'z');
        assert forall|y: int| x <= y < z implies #[trigger] s[y] != ':' by {
            assert('a' <= s[y] <= 'z');
        }
        lemma_no_colon(s, x, z);
    }
    law_words_of_piece(s, m, z, m, z);
    assert(token_to(s, m, z)) by {
        assert forall|x: int| m <= x < z implies #[trigger] joined(s, x) by {
            assert('a' <= s[x] <= 'z');
        }
        if z < s.len() {
            lemma_white_apart(s, z);
        }
    }
    assert(lettered(s, m, z));
    assert(apostrophes(s, z, z));
    assert('a' <= s[z - 1] <= 'z');
    assert(!mixed_case(s, m, z)) by {
        if mixed_case(s, m, z) {
            let k = choose|k: int| m < k < z && unicode::capital(#[trigger] s[k]);
            assert('a' <= s[k] <= 'z');
        }
    }
    assert(is_checked(s, m, z));
}

/// The scan comes to the start of a piece, if no box reaches into it.
proof fn lemma_reach(s: Seq<char>, i: int, code: bool, m: int, a: int, j: int)
    requires
        0 <= i <= m <= a,
        m < s.len(),
        m == 0 || ascii_white(s[m - 1]),
        s[m] != '[' && s[m] != ']',
        code == (backticks(s, i, m) % 2 == 1),
        (forall|x: int| i <= x < m ==> #[trigger] s[x] != '`') || (forall|x: int|
            i <= x < m ==> #[trigger] s[x] != ':'),
    ensures
        spell::prose_words(s, i, code).contains((a, j)) == spell::prose_words(
            s,
            m,
            false,
        ).contains((a, j)),
    decreases m - i,
{
    if i == m {
        assert(backticks(s, m, m) == 0);
    } else if s[i] == '`' || code {
        let c = if s[i] == '`' {
            !code
        } else {
            code
        };
        assert(spell::prose_words(s, i, code) == spell::prose_words(s, i + 1, c));
        lemma_backticks_split(s, i, i + 1, m);
        assert(backticks(s, i, i) == 0);
        lemma_reach(s, i + 1, c, m, a, j);
    } else {
        let ws = spell::prose_words(s, i, false);
        spell::lemma_skips(s, i);
        assert(ascii_white(s[m - 1]));
        lemma_white_apart(s, m - 1);
        lemma_skip_holds_no_tick(s, i);
        if !(forall|x: int| i <= x < m ==> #[trigger] s[x] != '`') {
            if i < m - 1 {
                lemma_no_colon(s, i, m - 1);
            } else {
                lemma_white_passes(s, i);
            }
        }
        lemma_spelled(s, i, "http://"@);
        lemma_spelled(s, i, "https://"@);
        lemma_spelled(s, i, "ftp://"@);
        lemma_spelled(s, i, "file://"@);
        lemma_spelled(s, i, "TODO:"@);
        lemma_spelled(s, i, "DONE:"@);
        if spell::is_url(s, i) {
            let e = spell::next_white(s, i);
            lemma_next_white(s, i, m - 1);
            lemma_no_backticks(s, i, m);
            lemma_no_backticks(s, e, m);
            lemma_reach(s, e, false, m, a, j);
        } else if spell::is_tag(s, i) {
            lemma_tag_stop(s, i + 1, m - 1);
            let e = highlight::tag_stop(s, i + 1);
            lemma_no_backticks(s, i, e);
            lemma_backticks_split(s, i, e, m);
            lemma_reach(s, e, false, m, a, j);
        } else if spell::is_todo_keyword(s, i) {
            reveal_strlit("TODO:");
            reveal_strlit("DONE:");
            let p = if text::occurs_at(s, i, "TODO:"@) {
                "TODO:"@
            } else {
                "DONE:"@
            };
            if m - 1 < i + 5 {
                assert(s.subrange(i, i + 5)[m - 1 - i] == p[m - 1 - i]);
            }
            lemma_no_backticks(s, i, m);
            lemma_no_backticks(s, i + 5, m);
            lemma_reach(s, i + 5, false, m, a, j);
        } else if spell::is_checkbox(s, i) {
            lemma_box_apart(s, i, m);
            lemma_no_backticks(s, i, i + 5);
            lemma_backticks_split(s, i, i + 5, m);
            lemma_reach(s, i + 5, false, m, a, j);
        } else if !unicode::letter(s[i]) {
            lemma_backticks_split(s, i, i + 1, m);
            assert(backticks(s, i, i) == 0);
            lemma_reach(s, i + 1, false, m, a, j);
        } else {
            let e = spell::token_end(s, i);
            assert(joined(s, i));
            lemma_token_to(s, i);
            assert(e <= m - 1) by {
                if e > m - 1 {
                    assert(joined(s, m - 1));
                }
            }
            lemma_no_backticks(s, i, e);
            lemma_backticks_split(s, i, e, m);
            lemma_reach(s, e, false, m, a, j);
            let rest = spell::prose_words(s, e, false);
            if spell::checked_word(s, i, e) {
                let w = (i, spell::trim_apostrophes(s, i, e));
                assert(ws =~= seq![w] + rest);
                if rest.contains((a, j)) {
                    let k = choose|k: int| 0 <= k < rest.len() && rest[k] == (a, j);
                    assert(ws[k + 1] == (a, j));
                }
                if ws.contains((a, j)) {
                    let k = choose|k: int| 0 <= k < ws.len() && ws[k] == (a, j);
                    assert(k > 0);
                    assert(rest[k - 1] == (a, j));
                }
            }
        }
    }
}

proof fn lemma_box_apart(s: Seq<char>, i: int, m: int)
    requires
        0 <= i < m < s.len(),
        ascii_white(s[m - 1]),
        s[m] != '[' && s[m] != ']',
        spell::is_checkbox(s, i),
    ensures
        i + 5 <= m,
{
    reveal_strlit("- [ ]");
    reveal_strlit("- [x]");
    reveal_strlit("- [X]");
    let p = if text::occurs_at(s, i, "- [ ]"@) {
        "- [ ]"@
    } else if text::occurs_at(s, i, "- [x]"@) {
        "- [x]"@
    } else {
        "- [X]"@
    };
    let t = s.subrange(i, i + 5);
    assert(t == p);
    assert(t[0] == s[i] && t[1] == s[i + 1] && t[2] == s[i + 2] && t[3] == s[i + 3] && t[4]
        == s[i + 4]);
}

/// Addresses are not checked: from the scheme at the start of a piece to the next white
/// space there is no word. Nor is a tag, `#` and name, or a todo keyword.
pub proof fn law_passed_over(s: Seq<char>, m: int, z: int, a: int, j: int)
    requires
        0 <= m <= a < z <= s.len(),
        m == 0 || ascii_white(s[m - 1]),
        code_closed(s, m),
        ({
            ||| (spelled(s, m, "http://"@) || spelled(s, m, "https://"@) || spelled(
                s,
                m,
                "ftp://"@,
            ) || spelled(s, m, "file://"@)) && (z == s.len() || spacing(s[z])) && forall|x: int|
                m <= x < z ==> !spacing(#[trigger] s[x])
            ||| s[m] == '#' && (z == s.len() || !in_name(s[z])) && (forall|x: int|
                m < x < z ==> in_name(#[trigger] s[x])) && exists|x: int|
                m < x < z && !('0' <= #[trigger] s[x] <= '9')
            ||| (spelled(s, m, "TODO:"@) || spelled(s, m, "DONE:"@)) && z == m + 5
        }),
    ensures
        !spell::prose_words(s, 0, false).contains((a, j)),
{
    reveal_strlit("http://");
    reveal_strlit("https://");
    reveal_strlit("ftp://");
    reveal_strlit("file://");
    reveal_strlit("TODO:");
    reveal_strlit("DONE:");
    let p = if spelled(s, m, "http://"@) {
        "http://"@
    } else if spelled(s, m, "https://"@) {
        "https://"@
    } else if spelled(s, m, "ftp://"@) {
        "ftp://"@
    } else if spelled(s, m, "file://"@) {
        "file://"@
    } else if spelled(s, m, "TODO:"@) {
        "TODO:"@
    } else {
        "DONE:"@
    };
    if spelled(s, m, p) {
        assert(s[m + 0] == p[0]);
    }
    if forall|x: int| 0 <= x < m ==> #[trigger] s[x] != '`' {
        lemma_no_backticks(s, 0, m);
    }
    lemma_reach(s, 0, false, m, a, j);
    lemma_spelled(s, m, "http://"@);
    lemma_spelled(s, m, "https://"@);
    lemma_spelled(s, m, "ftp://"@);
    lemma_spelled(s, m, "file://"@);
    lemma_spelled(s, m, "TODO:"@);
    lemma_spelled(s, m, "DONE:"@);
    spell::lemma_skips(s, m);
    if spell::is_url(s, m) {
        lemma_white_stop(s, m, z);
        lemma_not_before(s, z, (a, j));
    } else if s[m] == '#' {
        crate::highlight_laws::lemma_tag_stops(s, m + 1, z);
        let x = choose|x: int| m < x < z && !('0' <= #[trigger] s[x] <= '9');
        assert(highlight::not_all_digits(s, m + 1, z));
        lemma_not_before(s, z, (a, j));
    } else {
        assert(m == 0 || words::is_white(s[m - 1]));
        lemma_not_before(s, m + 5, (a, j));
    }
}

proof fn lemma_white_stop(s: Seq<char>, i: int, z: int)
    requires
        0 <= i <= z <= s.len(),
        z == s.len() || spacing(s[z]),
        forall|x: int| i <= x < z ==> !spacing(#[trigger] s[x]),
    ensures
        spell::next_white(s, i) == z,
    decreases z - i,
{
    if i < s.len() {
        assert(words::is_white(s[i]) == spacing(s[i]));
    }
    if i < z {
        lemma_white_stop(s, i + 1, z);
    }
}

/// Words to be checked come in order and do not overlap.
pub proof fn law_words_in_order(s: Seq<char>, j: int, k: int)
    requires
        0 <= j < k < spell::prose_words(s, 0, false).len(),
    ensures
        ({
            let ws = spell::prose_words(s, 0, false);
            ws[j].0 < ws[j].1 <= ws[k].0
        }),
{
    lemma_words_from(s, 0, false);
    let ws = spell::prose_words(s, 0, false);
    assert(ws[j].1 <= ws[k].0);
}

// ---------------------------------------------------------------------------
// Inline code
// ---------------------------------------------------------------------------

/// How many backticks `s[i..j]` holds.
pub open spec fn backticks(s: Seq<char>, i: int, j: int) -> int
    decreases j - i,
{
    if j <= i {
        0
    } else {
        backticks(s, i, j - 1) + if s[j - 1] == '`' {
            1int
        } else {
            0
        }
    }
}

proof fn lemma_backticks_split(s: Seq<char>, i: int, m: int, j: int)
    requires
        i <= m <= j,
    ensures
        backticks(s, i, j) == backticks(s, i, m) + backticks(s, m, j),
    decreases j - m,
{
    if m < j {
        lemma_backticks_split(s, i, m, j - 1);
    }
}

proof fn lemma_no_backticks(s: Seq<char>, i: int, j: int)
    requires
        forall|x: int| i <= x < j ==> #[trigger] s[x] != '`',
    ensures
        backticks(s, i, j) == 0,
    decreases j - i,
{
    if i < j {
        lemma_no_backticks(s, i, j - 1);
    }
}

proof fn lemma_outside_code(s: Seq<char>, i: int, code: bool, k: int)
    requires
        0 <= i,
        forall|x: int| 0 <= x < s.len() ==> #[trigger] s[x] != ':',
        0 <= k < spell::prose_words(s, i, code).len(),
    ensures
        (backticks(s, i, spell::prose_words(s, i, code)[k].0) % 2 == 1) == code,
    decreases s.len() - i,
{
    let ws = spell::prose_words(s, i, code);
    lemma_words_from(s, i, code);
    let a = ws[k].0;
    if i < s.len() {
        spell::lemma_skips(s, i);
        if s[i] == '`' || code {
            let c = if s[i] == '`' {
                !code
            } else {
                code
            };
            assert(ws == spell::prose_words(s, i + 1, c));
            lemma_words_from(s, i + 1, c);
            lemma_outside_code(s, i + 1, c, k);
            lemma_backticks_split(s, i, i + 1, a);
            assert(backticks(s, i, i) == 0);
        } else {
            lemma_no_url(s, i);
            let e = if spell::is_tag(s, i) {
                highlight::tag_stop(s, i + 1)
            } else if spell::is_checkbox(s, i) {
                i + 5
            } else if !unicode::letter(s[i]) {
                i + 1
            } else {
                spell::token_end(s, i)
            };
            assert(backticks(s, i, e) == 0) by {
                lemma_skip_holds_no_tick(s, i);
                lemma_no_backticks(s, i, e);
            }
            let rest = spell::prose_words(s, e, code);
            lemma_words_from(s, e, code);
            if ws == rest {
                lemma_outside_code(s, e, code, k);
                lemma_backticks_split(s, i, e, a);
            } else {
                let w = (i, spell::trim_apostrophes(s, i, e));
                assert(ws =~= seq![w] + rest);
                if k > 0 {
                    assert(ws[k] == rest[k - 1]);
                    lemma_outside_code(s, e, code, k - 1);
                    lemma_backticks_split(s, i, e, a);
                } else {
                    assert(a == i);
                    assert(backticks(s, i, i) == 0);
                }
            }
        }
    }
}

/// Without a colon there is neither a URL nor a todo keyword.
proof fn lemma_no_url(s: Seq<char>, i: int)
    requires
        forall|x: int| 0 <= x < s.len() ==> #[trigger] s[x] != ':',
        0 <= i,
    ensures
        !spell::is_url(s, i),
        !spell::is_todo_keyword(s, i),
{
    reveal_strlit("http://");
    reveal_strlit("https://");
    reveal_strlit("ftp://");
    reveal_strlit("file://");
    reveal_strlit("TODO:");
    reveal_strlit("DONE:");
    if text::occurs_at(s, i, "http://"@) {
        assert(s.subrange(i, i + 7)[4] == s[i + 4]);
    }
    if text::occurs_at(s, i, "https://"@) {
        assert(s.subrange(i, i + 8)[5] == s[i + 5]);
    }
    if text::occurs_at(s, i, "ftp://"@) {
        assert(s.subrange(i, i + 6)[3] == s[i + 3]);
    }
    if text::occurs_at(s, i, "file://"@) {
        assert(s.subrange(i, i + 7)[4] == s[i + 4]);
    }
    if text::occurs_at(s, i, "TODO:"@) {
        assert(s.subrange(i, i + 5)[4] == s[i + 4]);
    }
    if text::occurs_at(s, i, "DONE:"@) {
        assert(s.subrange(i, i + 5)[4] == s[i + 4]);
    }
}

/// No backtick is skipped over.
proof fn lemma_skip_holds_no_tick(s: Seq<char>, i: int)
    requires
        0 <= i < s.len(),
        s[i] != '`',
    ensures
        spell::is_tag(s, i) ==> forall|x: int|
            i <= x < highlight::tag_stop(s, i + 1) ==> #[trigger] s[x] != '`',
        spell::is_checkbox(s, i) ==> forall|x: int| i <= x < i + 5 ==> #[trigger] s[x] != '`',
        unicode::letter(s[i]) ==> forall|x: int|
            i <= x < spell::token_end(s, i) ==> #[trigger] s[x] != '`',
{
    lemma_tag_chars(s, i + 1);
    if spell::is_checkbox(s, i) {
        reveal_strlit("- [ ]");
        reveal_strlit("- [x]");
        reveal_strlit("- [X]");
        let p = if text::occurs_at(s, i, "- [ ]"@) {
            "- [ ]"@
        } else if text::occurs_at(s, i, "- [x]"@) {
            "- [x]"@
        } else {
            "- [X]"@
        };
        assert forall|x: int| i <= x < i + 5 implies #[trigger] s[x] != '`' by {
            assert(s.subrange(i, i + 5)[x - i] == p[x - i]);
        }
    }
    if unicode::letter(s[i]) {
        assert(joined(s, i));
        lemma_token_to(s, i);
        assert forall|x: int| i <= x < spell::token_end(s, i) implies #[trigger] s[x] != '`' by {
            assert(joined(s, x));
        }
    }
}

proof fn lemma_tag_chars(s: Seq<char>, p: int)
    requires
        0 <= p <= s.len(),
    ensures
        forall|x: int| p <= x < highlight::tag_stop(s, p) ==> #[trigger] s[x] != '`',
    decreases s.len() - p,
{
    if p < s.len() && highlight::is_tag_char(s[p]) {
        lemma_tag_chars(s, p + 1);
    }
}

/// Nothing in inline code is checked: on a line without URLs every word has an even number
/// of backticks before it.
pub proof fn law_code_is_not_checked(s: Seq<char>, k: int)
    requires
        forall|x: int| 0 <= x < s.len() ==> #[trigger] s[x] != ':',
        0 <= k < spell::prose_words(s, 0, false).len(),
    ensures
        backticks(s, 0, spell::prose_words(s, 0, false)[k].0) % 2 == 0,
{
    lemma_outside_code(s, 0, false, k);
}

// ---------------------------------------------------------------------------
// A file
// ---------------------------------------------------------------------------

/// A line starts at `p`.
pub open spec fn starts_line(b: Seq<u8>, p: int) -> bool {
    p == 0 || b[p - 1] == 10
}

/// Where the line at `p` ends: at its newline, or at `end`.
pub open spec fn line_end(b: Seq<u8>, p: int, end: int) -> int
    decreases end - p,
{
    if p >= end || b[p] == 10 {
        p
    } else {
        line_end(b, p + 1, end)
    }
}

/// The text of the line at `p`.
pub open spec fn line_text(b: Seq<u8>, p: int, end: int) -> Seq<char> {
    decode_utf8(b.subrange(p, line_end(b, p, end)))
}

/// The character `c` three times at `x`.
pub open spec fn thrice(s: Seq<char>, x: int, c: char) -> bool {
    x + 3 <= s.len() && s[x] == c && s[x + 1] == c && s[x + 2] == c
}

/// White space only.
pub open spec fn all_spacing(s: Seq<char>, x: int) -> bool {
    forall|k: int| 0 <= k < x ==> spacing(#[trigger] s[k])
}

/// A line that opens or closes a block of code: three backticks or tildes behind white
/// space.
pub open spec fn fence_line(s: Seq<char>) -> bool {
    exists|x: int|
        0 <= x && #[trigger] all_spacing(s, x) && (thrice(s, x, '`') || thrice(s, x, '~'))
}

/// How many of the lines that start in `b[from..p]` are fences.
pub open spec fn fence_lines(b: Seq<u8>, from: int, p: int, end: int) -> int
    decreases p - from,
{
    if p <= from {
        0
    } else {
        fence_lines(b, from, p - 1, end) + if (p - 1 == from || starts_line(b, p - 1))
            && fence_line(line_text(b, p - 1, end)) {
            1int
        } else {
            0
        }
    }
}

/// The range `[start, end)` is checked from a line that starts at `home`; the line at `p`
/// is looked at: no block of code is open there, and it is neither a fence nor a
/// delimiter.
pub open spec fn looked_at(b: Seq<u8>, home: int, start: int, end: int, p: int) -> bool {
    &&& (fence_lines(b, 0, home, b.len() as int) + fence_lines(b, start, p, end)) % 2 == 0
    &&& !fence_line(line_text(b, p, end))
    &&& !(thrice(line_text(b, p, end), 0, '='))
}

/// `t` is `c` and carriage returns behind it.
pub open spec fn but_returns(t: Seq<char>, c: Seq<char>) -> bool {
    &&& c.len() <= t.len()
    &&& t.subrange(0, c.len() as int) == c
    &&& c.len() > 0 ==> c.last() != '\r'
    &&& forall|k: int| c.len() <= k < t.len() ==> #[trigger] t[k] == '\r'
}

/// `w` is a word of the line `c` that stands at byte `p`.
pub open spec fn word_on(c: Seq<char>, p: int, w: (int, int)) -> bool {
    exists|a: int, j: int|
        #[trigger] spell::prose_words(c, 0, false).contains((a, j)) && w == (
            p + encode_utf8(c.subrange(0, a)).len(),
            p + encode_utf8(c.subrange(0, j)).len(),
        )
}

proof fn lemma_returns(t: Seq<char>, c: Seq<char>)
    requires
        but_returns(t, c),
    ensures
        spell::without_returns(t) == c,
    decreases t.len(),
{
    if t.len() > c.len() {
        assert(t.last() == '\r');
        let u = t.drop_last();
        assert(u.subrange(0, c.len() as int) =~= t.subrange(0, c.len() as int));
        lemma_returns(u, c);
    } else {
        assert(t =~= c);
    }
}

proof fn lemma_line_end(b: Seq<u8>, p: int, end: int)
    requires
        0 <= p <= end <= b.len(),
    ensures
        p <= line_end(b, p, end) <= end,
        forall|k: int| p <= k < line_end(b, p, end) ==> #[trigger] b[k] != 10,
        line_end(b, p, end) < end ==> b[line_end(b, p, end)] == 10,
    decreases end - p,
{
    if p < end && b[p] != 10 {
        lemma_line_end(b, p + 1, end);
    }
}

proof fn lemma_line_break(b: Seq<u8>, p: int, end: int)
    requires
        0 <= p <= end <= b.len(),
    ensures
        spell::line_break(b, p, end) == line_end(b, p, end),
    decreases end - p,
{
    if p < end && b[p] != 10 {
        lemma_line_break(b, p + 1, end);
    }
}

/// White space at the start of a line is passed over, whatever there is of it.
proof fn lemma_trim_start(s: Seq<char>) -> (x: int)
    ensures
        0 <= x <= s.len(),
        all_spacing(s, x),
        words::trim_start(s) == s.subrange(x, s.len() as int),
        x < s.len() ==> !spacing(s[x]),
    decreases s.len(),
{
    if s.len() > 0 && spacing(s[0]) {
        assert(words::is_white(s[0]));
        let t = s.drop_first();
        let y = lemma_trim_start(t);
        assert forall|k: int| 0 <= k < y + 1 implies spacing(#[trigger] s[k]) by {
            if k > 0 {
                assert(t[k - 1] == s[k]);
            }
        }
        assert(t.subrange(y, t.len() as int) =~= s.subrange(y + 1, s.len() as int));
        if y + 1 < s.len() {
            assert(t[y] == s[y + 1]);
        }
        y + 1
    } else {
        assert(s.subrange(0, s.len() as int) =~= s);
        if s.len() > 0 {
            assert(!words::is_white(s[0]));
        }
        0
    }
}

proof fn lemma_fence(s: Seq<char>)
    ensures
        spell::fence_text(s) == fence_line(s),
{
    let x = lemma_trim_start(s);
    let t = words::trim_start(s);
    reveal_strlit("```");
    reveal_strlit("~~~");
    if spell::fence_text(s) {
        assert(t.subrange(0, 3)[0] == s[x] && t.subrange(0, 3)[1] == s[x + 1] && t.subrange(
            0,
            3,
        )[2] == s[x + 2]);
        assert(thrice(s, x, '`') || thrice(s, x, '~'));
    }
    if fence_line(s) {
        let y = choose|y: int|
            0 <= y && #[trigger] all_spacing(s, y) && (thrice(s, y, '`') || thrice(s, y, '~'));
        assert(y == x) by {
            if y < x {
                assert(spacing(s[y]));
            } else if x < y {
                assert(spacing(s[x]));
            }
        }
        if thrice(s, x, '`') {
            assert(t.subrange(0, 3) =~= "```"@);
        } else {
            assert(t.subrange(0, 3) =~= "~~~"@);
        }
    }
}

proof fn lemma_fence_but_returns(t: Seq<char>, c: Seq<char>)
    requires
        but_returns(t, c),
    ensures
        fence_line(t) == fence_line(c),
{
    assert forall|k: int| 0 <= k < c.len() implies t[k] == #[trigger] c[k] by {
        assert(t.subrange(0, c.len() as int)[k] == t[k]);
    }
    if fence_line(t) {
        let x = choose|x: int|
            0 <= x && #[trigger] all_spacing(t, x) && (thrice(t, x, '`') || thrice(t, x, '~'));
        assert(x + 3 <= c.len()) by {
            if x + 3 > c.len() {
                assert(t[x + 2] == '\r');
            }
        }
        assert forall|k: int| 0 <= k < x implies spacing(#[trigger] c[k]) by {
            assert(spacing(t[k]));
        }
        assert(all_spacing(c, x));
        assert(c[x] == t[x] && c[x + 1] == t[x + 1] && c[x + 2] == t[x + 2]);
    }
    if fence_line(c) {
        let x = choose|x: int|
            0 <= x && #[trigger] all_spacing(c, x) && (thrice(c, x, '`') || thrice(c, x, '~'));
        assert forall|k: int| 0 <= k < x implies spacing(#[trigger] t[k]) by {
            assert(spacing(c[k]));
        }
        assert(all_spacing(t, x));
        assert(c[x] == t[x] && c[x + 1] == t[x + 1] && c[x + 2] == t[x + 2]);
    }
}

proof fn lemma_fence_lines_split(b: Seq<u8>, from: int, m: int, p: int, end: int)
    requires
        from <= m <= p,
        m == from || starts_line(b, m),
    ensures
        fence_lines(b, from, p, end) == fence_lines(b, from, m, end) + fence_lines(b, m, p, end),
    decreases p - m,
{
    if m < p {
        lemma_fence_lines_split(b, from, m, p - 1, end);
    }
}

proof fn lemma_fence_lines_one(b: Seq<u8>, from: int, q: int, end: int)
    requires
        0 <= from < q,
        forall|k: int| from <= k < q - 1 ==> #[trigger] b[k] != 10,
    ensures
        fence_lines(b, from, q, end) == if fence_line(line_text(b, from, end)) {
            1int
        } else {
            0
        },
    decreases q - from,
{
    if q - 1 > from {
        lemma_fence_lines_one(b, from, q - 1, end);
        assert(b[q - 2] != 10);
    } else {
        assert(fence_lines(b, from, q - 1, end) == 0);
    }
}

/// Words of a line stand on it.
proof fn lemma_placed(c: Seq<char>, p: int, w: (int, int))
    ensures
        spell::placed(c, p, spell::prose_words(c, 0, false)).contains(w) == word_on(c, p, w),
        word_on(c, p, w) ==> p <= w.0 <= p + encode_utf8(c).len(),
{
    let ws = spell::prose_words(c, 0, false);
    let ps = spell::placed(c, p, ws);
    lemma_words_from(c, 0, false);
    if ps.contains(w) {
        let k = choose|k: int| 0 <= k < ps.len() && ps[k] == w;
        assert(ws.contains((ws[k].0, ws[k].1))) by {
            assert(ws[k] == (ws[k].0, ws[k].1));
        }
        assert(word_on(c, p, w));
    }
    if word_on(c, p, w) {
        let (a, j) = choose|a: int, j: int|
            #[trigger] ws.contains((a, j)) && w == (
                p + encode_utf8(c.subrange(0, a)).len(),
                p + encode_utf8(c.subrange(0, j)).len(),
            );
        let k = choose|k: int| 0 <= k < ws.len() && ws[k] == (a, j);
        assert(ps[k] == w);
        text::lemma_byte_offset_monotone(c, a, c.len() as int);
        text::lemma_byte_offset_ends(c);
    }
}

/// The words found from `pos` on stand there or later.
proof fn lemma_words_behind(b: Seq<u8>, pos: int, end: int, block: bool, w: (int, int))
    requires
        0 <= pos,
        spell::words_in(b, pos, end, block).contains(w),
    ensures
        pos <= w.0,
    decreases end + 1 - pos,
{
    let ws = spell::words_in(b, pos, end, block);
    if pos < end && end <= b.len() {
        spell::lemma_line_break(b, pos, end);
        let stop = spell::line_break(b, pos, end);
        let c = spell::without_returns(decode_utf8(b.subrange(pos, stop)));
        if spell::fence_text(c) {
            lemma_words_behind(b, stop + 1, end, !block, w);
        } else if block || text::begins_with(c, "==="@) {
            lemma_words_behind(b, stop + 1, end, block, w);
        } else {
            let here = spell::placed(c, pos, spell::prose_words(c, 0, false));
            let rest = spell::words_in(b, stop + 1, end, block);
            lemma_placed(c, pos, w);
            let k = choose|k: int| 0 <= k < ws.len() && ws[k] == w;
            if k < here.len() {
                assert(here[k] == w);
            } else {
                assert(rest[k - here.len()] == w);
                lemma_words_behind(b, stop + 1, end, block, w);
            }
        }
    }
}

proof fn lemma_contains_joined(xs: Seq<(int, int)>, ys: Seq<(int, int)>, w: (int, int))
    ensures
        (xs + ys).contains(w) == (xs.contains(w) || ys.contains(w)),
{
    let all = xs + ys;
    if xs.contains(w) {
        let k = choose|k: int| 0 <= k < xs.len() && xs[k] == w;
        assert(all[k] == w);
    }
    if ys.contains(w) {
        let k = choose|k: int| 0 <= k < ys.len() && ys[k] == w;
        assert(all[xs.len() + k] == w);
    }
    if all.contains(w) {
        let k = choose|k: int| 0 <= k < all.len() && all[k] == w;
        if k < xs.len() {
            assert(xs[k] == w);
        } else {
            assert(ys[k - xs.len()] == w);
        }
    }
}

/// The bytes of a line's text are on the line.
proof fn lemma_line_bytes(b: Seq<u8>, p: int, end: int, c: Seq<char>)
    requires
        valid_utf8(b),
        0 <= p <= end <= b.len(),
        text::on_boundary(b, p),
        text::on_boundary(b, end),
        but_returns(line_text(b, p, end), c),
    ensures
        encode_utf8(c).len() <= line_end(b, p, end) - p,
        line_end(b, p, end) < end ==> text::on_boundary(b, line_end(b, p, end) + 1),
{
    let q = line_end(b, p, end);
    lemma_line_end(b, p, end);
    if q < end {
        text::lemma_after_ascii(b, q);
    }
    let s = decode_utf8(b);
    decode_utf8_encode_utf8(b);
    text::lemma_piece_decodes(s, p, q);
    let t = line_text(b, p, end);
    text::lemma_byte_offset_monotone(t, c.len() as int, t.len() as int);
    text::lemma_byte_offset_ends(t);
}

/// What is found on the line at `p`, by a scan that starts at `pos`.
proof fn lemma_line_words(
    b: Seq<u8>,
    pos: int,
    end: int,
    block: bool,
    p: int,
    c: Seq<char>,
    w: (int, int),
)
    requires
        valid_utf8(b),
        0 <= pos <= p < end <= b.len(),
        text::on_boundary(b, pos),
        text::on_boundary(b, end),
        p == pos || starts_line(b, p),
        but_returns(line_text(b, p, end), c),
        p <= w.0 <= line_end(b, p, end),
    ensures
        spell::words_in(b, pos, end, block).contains(w) == ((fence_lines(b, pos, p, end) % 2 == 1)
            == block && !fence_line(line_text(b, p, end)) && !thrice(line_text(b, p, end), 0, '=')
            && word_on(c, p, w)),
    decreases end - pos,
{
    let ws = spell::words_in(b, pos, end, block);
    spell::lemma_line_break(b, pos, end);
    lemma_line_break(b, pos, end);
    lemma_line_end(b, pos, end);
    let stop = line_end(b, pos, end);
    let t = line_text(b, pos, end);
    let content = spell::without_returns(t);
    lemma_but_returns(t);
    lemma_fence(content);
    lemma_fence_but_returns(t, content);
    lemma_delimiter(t, content);
    lemma_line_bytes(b, pos, end, content);
    let here = spell::placed(content, pos, spell::prose_words(content, 0, false));
    let f = fence_line(t);
    let rest = spell::words_in(b, stop + 1, end, block != f);
    if p == pos {
        lemma_returns(t, c);
        assert(fence_lines(b, pos, p, end) == 0);
        lemma_placed(c, p, w);
        assert(!rest.contains(w)) by {
            if rest.contains(w) {
                lemma_words_behind(b, stop + 1, end, block != f, w);
            }
        }
        if !f && !block && !thrice(t, 0, '=') {
            lemma_contains_joined(here, rest, w);
        }
    } else {
        assert(b[p - 1] == 10);
        assert(stop + 1 <= p) by {
            if p <= stop {
                assert(b[p - 1] != 10);
            }
        }
        assert(b[stop] == 10);
        lemma_line_words(b, stop + 1, end, block != f, p, c, w);
        lemma_fence_lines_split(b, pos, stop + 1, p, end);
        lemma_fence_lines_one(b, pos, stop + 1, end);
        if !f && !block && !thrice(t, 0, '=') {
            lemma_contains_joined(here, rest, w);
            lemma_placed(content, pos, w);
        }
    }
}

/// A text without its carriage returns.
proof fn lemma_but_returns(t: Seq<char>)
    ensures
        but_returns(t, spell::without_returns(t)),
    decreases t.len(),
{
    if t.len() > 0 && t.last() == '\r' {
        let u = t.drop_last();
        lemma_but_returns(u);
        let c = spell::without_returns(u);
        assert(t.subrange(0, c.len() as int) =~= u.subrange(0, c.len() as int));
        assert forall|k: int| c.len() <= k < t.len() implies #[trigger] t[k] == '\r' by {
            if k < u.len() {
                assert(u[k] == '\r');
            }
        }
    } else {
        assert(t.subrange(0, t.len() as int) =~= t);
    }
}

proof fn lemma_delimiter(t: Seq<char>, c: Seq<char>)
    requires
        but_returns(t, c),
    ensures
        text::begins_with(c, "==="@) == thrice(t, 0, '='),
{
    reveal_strlit("===");
    assert forall|k: int| 0 <= k < c.len() implies t[k] == #[trigger] c[k] by {
        assert(t.subrange(0, c.len() as int)[k] == t[k]);
    }
    if text::begins_with(c, "==="@) {
        let d = c.subrange(0, 3);
        assert(d[0] == c[0] && d[1] == c[1] && d[2] == c[2]);
    }
    if thrice(t, 0, '=') {
        assert(c.len() >= 3) by {
            if c.len() < 3 {
                assert(t[2] == '\r');
            }
        }
        assert(c[0] == '=' && c[1] == '=' && c[2] == '=');
        assert(c.subrange(0, 3) =~= "==="@);
    }
}

/// Whether a block of code is open is a matter of the fences before.
proof fn lemma_block(b: Seq<u8>, l: int)
    requires
        0 <= l < spans::line_starts(b).len(),
    ensures
        spell::in_block(b, l) == (fence_lines(b, 0, spans::line_starts(b)[l], b.len() as int) % 2
            == 1),
    decreases l,
{
    spans::lemma_line_starts(b);
    let st = spans::line_starts(b);
    let n = b.len() as int;
    if l > 0 {
        lemma_block(b, l - 1);
        let from = st[l - 1];
        let q = st[l];
        assert(from < q);
        assert(b[q - 1] == 10);
        assert forall|k: int| from <= k < q - 1 implies #[trigger] b[k] != 10 by {
            if b[k] == 10 {
                assert(st.contains(k + 1));
                let x = choose|x: int| 0 <= x < st.len() && st[x] == k + 1;
                if x <= l - 1 {
                    assert(st[x] <= st[l - 1]);
                } else {
                    assert(st[l] <= st[x]);
                }
            }
        }
        if l - 1 > 0 {
            assert(b[st[l - 1] - 1] == 10);
        }
        lemma_line_end(b, from, n);
        assert(line_end(b, from, n) == q - 1) by {
            let e = line_end(b, from, n);
            if e < q - 1 {
                assert(b[e] != 10);
            } else if e > q - 1 {
                assert(b[q - 1] != 10);
            }
        }
        lemma_fence_lines_split(b, 0, from, q, n);
        lemma_fence_lines_one(b, from, q, n);
        lemma_fence(spell::whole_line(b, l - 1));
    }
}

/// A spell check of `[start, end)` finds, on each line that it looks at, exactly the words
/// of the line, each at its own place; and none on the other lines. `home` is the start of
/// the line on which the range begins, `c` the text of the line without its ending.
pub proof fn law_words_of_file(
    b: Seq<u8>,
    home: int,
    start: int,
    end: int,
    p: int,
    c: Seq<char>,
    w: (int, int),
)
    requires
        valid_utf8(b),
        0 <= home <= start <= p < end <= b.len(),
        starts_line(b, home),
        forall|k: int| home <= k < start ==> #[trigger] b[k] != 10,
        text::on_boundary(b, start),
        text::on_boundary(b, end),
        p == start || starts_line(b, p),
        but_returns(line_text(b, p, end), c),
        p <= w.0 <= line_end(b, p, end),
    ensures
        spell::words_to_check(b, start, end).contains(w) <==> looked_at(b, home, start, end, p)
            && word_on(c, p, w),
{
    let l = positions::line_at(b, start);
    positions::lemma_line_at(b, start);
    spans::lemma_line_starts(b);
    let st = spans::line_starts(b);
    assert(st[l] == home) by {
        if home > 0 {
            assert(b[home - 1] == 10);
            assert(st.contains(home));
        } else {
            assert(st[0] == 0);
            assert(st.contains(home));
        }
        let x = choose|x: int| 0 <= x < st.len() && st[x] == home;
        if x < l {
            assert(st[x] < st[l]);
            assert(b[st[l] - 1] == 10);
        } else if l < x {
            assert(st[l + 1] <= st[x]);
        }
    }
    lemma_block(b, l);
    lemma_line_words(b, start, end, spell::in_block(b, l), p, c, w);
}

} // verus!
