//! What the spell check does with the words it found: which of them are known, where it
//! stops, and what a correction writes.

use vstd::prelude::*;
use vstd::utf8::*;

use crate::editing::EditorView;
use crate::keys::{Key, KeyCode};
use crate::spell;
use crate::spell::EngineView;
use crate::spell_wizard;
use crate::spell_wizard::WizardView;
use crate::unicode;
use crate::words;

verus! {

// ---------------------------------------------------------------------------
// Known words
// ---------------------------------------------------------------------------

/// `w` is `s` with its ASCII capitals made small.
pub open spec fn is_small_form(w: Seq<char>, s: Seq<char>) -> bool {
    &&& w.len() == s.len()
    &&& forall|k: int|
        0 <= k < s.len() ==> #[trigger] w[k] as int == if 'A' <= s[k] <= 'Z' {
            s[k] as int + 32
        } else {
            s[k] as int
        }
}

proof fn lemma_small_form(s: Seq<char>)
    ensures
        is_small_form(words::lower(s), s),
{
    let w = words::lower(s);
    assert forall|k: int| 0 <= k < s.len() implies #[trigger] w[k] as int == if 'A' <= s[k] <= 'Z' {
        s[k] as int + 32
    } else {
        s[k] as int
    } by {
        assert(w[k] == words::lower_char(s[k]));
    }
}

/// A word is known exactly if its small form is one that the user added, or the dictionary
/// lists it with a count of one or more.
pub proof fn law_known_words(e: EngineView, word: Seq<char>, small: Seq<char>)
    requires
        is_small_form(small, word),
    ensures
        spell::correct(e, word) <==> e.user.contains(small) || exists|i: int|
            0 <= i < e.entries.len() && (#[trigger] e.entries[i]).0 == spell::listed_form(small)
                && e.entries[i].1 >= 1,
{
    lemma_small_form(word);
    let w = words::lower(word);
    assert forall|k: int| 0 <= k < word.len() implies w[k] == small[k] by {
        assert(w[k] as int == small[k] as int);
    }
    assert(w =~= small);
}

proof fn lemma_user_words(lines: Seq<Seq<char>>, n: int, w: Seq<char>)
    requires
        0 <= n <= lines.len(),
    ensures
        spell::user_words_upto(lines, n).contains(w) <==> exists|k: int|
            0 <= k < n && words::trim(#[trigger] lines[k]).len() > 0 && w == words::lower(
                words::trim(lines[k]),
            ),
    decreases n,
{
    if n > 0 {
        lemma_user_words(lines, n - 1, w);
        if exists|k: int|
            0 <= k < n && words::trim(#[trigger] lines[k]).len() > 0 && w == words::lower(
                words::trim(lines[k]),
            ) {
            let k = choose|k: int|
                0 <= k < n && words::trim(#[trigger] lines[k]).len() > 0 && w == words::lower(
                    words::trim(lines[k]),
                );
            if k < n - 1 {
                assert(spell::user_words_upto(lines, n - 1).contains(w));
            }
        }
        if spell::user_words_upto(lines, n - 1).contains(w) {
            let k = choose|k: int|
                0 <= k < n - 1 && words::trim(#[trigger] lines[k]).len() > 0 && w == words::lower(
                    words::trim(lines[k]),
                );
            assert(0 <= k < n);
        }
    }
}

/// The words that the user added are the lines of their dictionary, trimmed and in small
/// letters, but for the blank ones.
pub proof fn law_user_dictionary(t: Seq<char>, w: Seq<char>)
    ensures
        spell::user_words_in(Some(t)).contains(w) <==> exists|k: int|
            0 <= k < words::pieces(t, '\n').len() && words::trim(
                #[trigger] words::pieces(t, '\n')[k],
            ).len() > 0 && w == words::lower(words::trim(words::pieces(t, '\n')[k])),
{
    lemma_user_words(words::pieces(t, '\n'), words::pieces(t, '\n').len() as int, w);
}

/// The dictionary lists a word exactly if a line of it has the word in front of the first
/// space and behind that a count of one or more.
pub proof fn law_dictionary(lines: Seq<Seq<char>>, n: int, w: Seq<char>)
    requires
        0 <= n <= lines.len(),
        forall|k: int| 0 <= k < n ==> spell::line_readable(#[trigger] lines[k]),
    ensures
        spell::lists(spell::entries_upto(lines, n), w) <==> exists|k: int|
            0 <= k < n && words::pieces(#[trigger] lines[k], ' ').len() >= 2 && spell::listed_form(
                words::pieces(lines[k], ' ')[0],
            ) == w && spell::count_on(lines[k])->Some_0 >= 1,
    decreases n,
{
    if n > 0 {
        law_dictionary(lines, n - 1, w);
        let old_entries = spell::entries_upto(lines, n - 1);
        let new_entries = spell::entries_upto(lines, n);
        let l = lines[n - 1];
        if spell::lists(new_entries, w) {
            let i = choose|i: int|
                0 <= i < new_entries.len() && (#[trigger] new_entries[i]).0 == w
                    && new_entries[i].1 >= 1;
            if i < old_entries.len() {
                assert(new_entries[i] == old_entries[i]);
                assert(spell::lists(old_entries, w));
            } else {
                assert(words::pieces(lines[n - 1], ' ').len() >= 2);
            }
        }
        if spell::lists(old_entries, w) {
            let i = choose|i: int|
                0 <= i < old_entries.len() && (#[trigger] old_entries[i]).0 == w
                    && old_entries[i].1 >= 1;
            assert(new_entries[i] == old_entries[i]);
        }
        if words::pieces(l, ' ').len() >= 2 && spell::listed_form(words::pieces(l, ' ')[0]) == w
            && spell::count_on(l)->Some_0 >= 1 {
            assert(new_entries[old_entries.len() as int] == (w, spell::count_on(l)->Some_0));
        }
    }
}

// ---------------------------------------------------------------------------
// Stops
// ---------------------------------------------------------------------------

/// The check stops at a word: it is not known, and was not skipped in whatever case.
pub open spec fn stops_at(
    b: Seq<u8>,
    e: EngineView,
    skipped: Set<Seq<char>>,
    w: (int, int),
) -> bool {
    let t = decode_utf8(b.subrange(w.0, w.1));
    !spell::correct(e, t) && !skipped.contains(words::lower(t))
}

proof fn lemma_misspelled_from(
    b: Seq<u8>,
    e: EngineView,
    skipped: Set<Seq<char>>,
    ws: Seq<(int, int)>,
    i: int,
)
    requires
        0 <= i,
    ensures
        match spell_wizard::misspelled_from(b, e, skipped, ws, i) {
            Some(w) => exists|k: int|
                i <= k < ws.len() && w == #[trigger] ws[k] && stops_at(b, e, skipped, ws[k])
                    && forall|j: int|
                    i <= j < k ==> !stops_at(b, e, skipped, #[trigger] ws[j]),
            None => forall|j: int|
                i <= j < ws.len() ==> !stops_at(b, e, skipped, #[trigger] ws[j]),
        },
    decreases ws.len() - i,
{
    if i < ws.len() {
        if stops_at(b, e, skipped, ws[i]) {
            assert(ws[i] == ws[i]);
        } else {
            lemma_misspelled_from(b, e, skipped, ws, i + 1);
            if let Some(w) = spell_wizard::misspelled_from(b, e, skipped, ws, i) {
                let k = choose|k: int|
                    i + 1 <= k < ws.len() && w == #[trigger] ws[k] && stops_at(
                        b,
                        e,
                        skipped,
                        ws[k],
                    ) && forall|j: int|
                        i + 1 <= j < k ==> !stops_at(b, e, skipped, #[trigger] ws[j]);
                assert forall|j: int| i <= j < k implies !stops_at(
                    b,
                    e,
                    skipped,
                    #[trigger] ws[j],
                ) by {
                    if j > i {
                        assert(i + 1 <= j);
                    }
                }
                assert(w == ws[k]);
            }
        }
    }
}

/// The check goes to the first word of the range that is not known and was not skipped;
/// it ends where there is none.
pub proof fn law_next_stop(b: Seq<u8>, e: EngineView, skipped: Set<Seq<char>>, from: int, to: int)
    ensures
        ({
            let ws = spell::words_to_check(b, from, to);
            match spell_wizard::next_bad(b, e, skipped, from, to) {
                Some(w) => exists|k: int|
                    0 <= k < ws.len() && w == #[trigger] ws[k] && stops_at(b, e, skipped, ws[k])
                        && forall|j: int|
                        0 <= j < k ==> !stops_at(b, e, skipped, #[trigger] ws[j]),
                None => forall|j: int|
                    0 <= j < ws.len() ==> !stops_at(b, e, skipped, #[trigger] ws[j]),
            }
        }),
{
    lemma_misspelled_from(b, e, skipped, spell::words_to_check(b, from, to), 0);
}

/// The words that are not known.
pub open spec fn unknown(b: Seq<u8>, e: EngineView, ws: Seq<(int, int)>) -> Set<int> {
    vstd::set_lib::set_int_range(0, ws.len() as int).filter(
        |k: int| !spell::correct(e, decode_utf8(b.subrange(ws[k].0, ws[k].1))),
    )
}

proof fn lemma_unknown(b: Seq<u8>, e: EngineView, ws: Seq<(int, int)>, n: int)
    requires
        0 <= n <= ws.len(),
    ensures
        unknown(b, e, ws.subrange(0, n)).finite(),
        unknown(b, e, ws.subrange(0, n)).len() == spell_wizard::misspelled_upto(b, e, ws, n),
    decreases n,
{
    let now = unknown(b, e, ws.subrange(0, n));
    vstd::set_lib::lemma_int_range(0, n);
    if n > 0 {
        lemma_unknown(b, e, ws, n - 1);
        let before = unknown(b, e, ws.subrange(0, n - 1));
        let w = ws[n - 1];
        assert(ws.subrange(0, n)[n - 1] == w);
        if spell::correct(e, decode_utf8(b.subrange(w.0, w.1))) {
            assert(now =~= before);
        } else {
            assert(now =~= before.insert(n - 1));
        }
    } else {
        assert(now =~= Set::<int>::empty());
    }
}

/// The number that the check starts with counts every word that is not known.
pub proof fn law_total(b: Seq<u8>, e: EngineView, from: int, to: int)
    ensures
        spell_wizard::bad_count(b, e, from, to) == unknown(
            b,
            e,
            spell::words_to_check(b, from, to),
        ).len(),
{
    let ws = spell::words_to_check(b, from, to);
    lemma_unknown(b, e, ws, ws.len() as int);
    assert(ws.subrange(0, ws.len() as int) =~= ws);
}

// ---------------------------------------------------------------------------
// Corrections
// ---------------------------------------------------------------------------

/// A letter stands at `k`.
pub open spec fn letter_at(s: Seq<char>, k: int) -> bool {
    0 <= k < s.len() && unicode::letter(s[k])
}

proof fn lemma_letters(s: Seq<char>, n: int)
    requires
        0 <= n <= s.len(),
    ensures
        spell_wizard::letters_upto(s, n) >= 0,
        spell_wizard::letters_upto(s, n) >= 1 <==> exists|k: int| k < n && #[trigger] letter_at(
            s,
            k,
        ),
        spell_wizard::letters_upto(s, n) >= 2 <==> exists|j: int, k: int|
            j < k < n && #[trigger] letter_at(s, j) && #[trigger] letter_at(s, k),
    decreases n,
{
    if n > 0 {
        lemma_letters(s, n - 1);
        let c = spell_wizard::letters_upto(s, n - 1);
        assert(letter_at(s, n - 1) == unicode::letter(s[n - 1]));
        if c >= 1 {
            let j = choose|j: int| j < n - 1 && #[trigger] letter_at(s, j);
            assert(j < n && letter_at(s, j));
        }
        if letter_at(s, n - 1) && c >= 1 {
            let j = choose|j: int| j < n - 1 && #[trigger] letter_at(s, j);
            assert(letter_at(s, j) && letter_at(s, n - 1));
        }
        if exists|j: int, k: int| j < k < n && #[trigger] letter_at(s, j) && #[trigger] letter_at(
            s,
            k,
        ) {
            let (j, k) = choose|j: int, k: int|
                j < k < n && #[trigger] letter_at(s, j) && #[trigger] letter_at(s, k);
            assert(j < n - 1 && letter_at(s, j));
        }
        if exists|k: int| k < n && #[trigger] letter_at(s, k) {
            let k = choose|k: int| k < n && #[trigger] letter_at(s, k);
            if k < n - 1 {
                assert(c >= 1);
            }
        }
    }
}

/// Two letters or more, and every letter a capital.
pub open spec fn in_capitals(s: Seq<char>) -> bool {
    &&& exists|j: int, k: int| j < k && #[trigger] letter_at(s, j) && #[trigger] letter_at(s, k)
    &&& forall|k: int| #[trigger] letter_at(s, k) ==> unicode::capital(s[k])
}

/// A correction is written as the word was: in capitals if the word is, with a capital
/// first if the word has one, else small.
pub proof fn law_case(word: Seq<char>, suggestion: Seq<char>)
    requires
        word.len() > 0,
        suggestion.len() > 0,
    ensures
        in_capitals(word) ==> spell_wizard::cased(word, suggestion) == unicode::upper_text(
            suggestion,
        ),
        !in_capitals(word) && unicode::capital(word[0]) ==> spell_wizard::cased(word, suggestion)
            == unicode::upper_chars(suggestion[0]) + unicode::lower_text(
            suggestion.subrange(1, suggestion.len() as int),
        ),
        !in_capitals(word) && !unicode::capital(word[0]) ==> spell_wizard::cased(
            word,
            suggestion,
        ) == unicode::lower_text(suggestion),
{
    lemma_letters(word, word.len() as int);
    if in_capitals(word) {
        let (j, k) = choose|j: int, k: int|
            j < k && #[trigger] letter_at(word, j) && #[trigger] letter_at(word, k);
        assert(letter_at(word, j) && letter_at(word, k));
        assert forall|i: int| 0 <= i < word.len() implies !unicode::letter(#[trigger] word[i])
            || unicode::capital(word[i]) by {
            if unicode::letter(word[i]) {
                assert(letter_at(word, i));
            }
        }
    } else if spell_wizard::all_capitals(word) && spell_wizard::letters_upto(
        word,
        word.len() as int,
    ) > 1 {
        let (j, k) = choose|j: int, k: int|
            j < k < word.len() && #[trigger] letter_at(word, j) && #[trigger] letter_at(word, k);
        assert(letter_at(word, j) && letter_at(word, k));
        assert forall|i: int| #[trigger] letter_at(word, i) implies unicode::capital(word[i]) by {
            assert(unicode::letter(word[i]));
        }
    }
}

/// A correction takes the place of the word in the text and changes nothing else of it.
pub proof fn law_correction(v: WizardView, e: EditorView, suggestion: Seq<char>)
    requires
        0 <= v.span.0 <= v.span.1 <= e.bytes.len(),
    ensures
        spell_wizard::fixed(v, e, suggestion).bytes == e.bytes.subrange(0, v.span.0) + encode_utf8(
            spell_wizard::cased(v.word, suggestion),
        ) + e.bytes.subrange(v.span.1, e.bytes.len() as int),
        ({
            let end = v.scope.1 + spell_wizard::fixed(v, e, suggestion).bytes.len()
                - e.bytes.len();
            end <= usize::MAX ==> spell_wizard::after_fix(v, suggestion).scope == (
                v.scope.0,
                end,
            )
        }),
{
}

/// The digits `1` to `5` pick a suggestion by its number, Enter the selected one.
pub proof fn law_picking(v: WizardView, key: Key, n: int)
    requires
        0 <= n < v.suggestions.len(),
        n < 5,
        key.code == KeyCode::Char((('1' as u32 + n) as u32) as char) || (key.code == KeyCode::Enter
            && n == v.selected),
    ensures
        spell_wizard::picked(v, key) == Some(v.suggestions[n]),
{
}

} // verus!
