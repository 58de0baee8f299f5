//! Commands and keys that go somewhere or stamp a note, said of lines and their text, and
//! the interval between idle pulls.

use vstd::prelude::*;
use vstd::utf8::*;

use crate::app_rules;
use crate::app_rules::AppView;
use crate::config;
use crate::editing;
use crate::highlight;
use crate::highlight_laws::{lemma_openings, opened};
use crate::key_laws;
use crate::key_laws::{after, ready, replaced};
use crate::keys::KeyCode;
use crate::numbers;
use crate::paint_laws::{lemma_header_text, lemma_opens_dated, opens_dated, tight};
use crate::positions;
use crate::spans;
use crate::text;
use crate::words;
use crate::wrap;
use crate::writing_laws::{all_spacing, law_trim, number};

verus! {

// ---------------------------------------------------------------------------
// Numbers
// ---------------------------------------------------------------------------

/// Digits, one or more.
pub open spec fn all_numerals(s: Seq<char>) -> bool {
    s.len() > 0 && forall|k: int| 0 <= k < s.len() ==> '0' <= #[trigger] s[k] <= '9'
}

proof fn lemma_value(s: Seq<char>)
    ensures
        numbers::value(s) == number(s),
    decreases s.len(),
{
    if s.len() > 0 {
        lemma_value(s.drop_last());
    }
}

/// Digits, with a `+` in front or not, are the number that they stand for; other text is
/// none.
pub proof fn law_reading_numbers(s: Seq<char>)
    ensures
        all_numerals(s) ==> numbers::unsigned(s) == Some(number(s)),
        all_numerals(s) ==> numbers::unsigned(seq!['+'] + s) == Some(number(s)),
        all_numerals(s) ==> numbers::signed(seq!['-'] + s) == Some(-number(s)),
        !all_numerals(s) && (s.len() == 0 || s[0] != '+') ==> numbers::unsigned(s) is None,
{
    lemma_value(s);
    assert((seq!['+'] + s).subrange(1, (s.len() + 1) as int) =~= s);
    assert((seq!['-'] + s).subrange(1, (s.len() + 1) as int) =~= s);
    if all_numerals(s) {
        assert('0' <= s[0] <= '9');
        assert forall|i: int| 0 <= i < s.len() implies numbers::digit(#[trigger] s[i]) by {}
    }
    if numbers::all_digits(s) {
        assert forall|i: int| 0 <= i < s.len() implies '0' <= #[trigger] s[i] <= '9' by {
            assert(numbers::digit(s[i]));
        }
    }
}

// ---------------------------------------------------------------------------
// Commands
// ---------------------------------------------------------------------------

/// A command is its verb, up to the first space, and an argument, without the white space
/// around it.
pub proof fn law_command_parts(
    verb: Seq<char>,
    lead: Seq<char>,
    arg: Seq<char>,
    tail: Seq<char>,
)
    requires
        !verb.contains(' '),
        all_spacing(lead),
        all_spacing(tail),
        tight(arg),
    ensures
        app_rules::verb_of(verb) == verb,
        app_rules::argument_of(verb).len() == 0,
        app_rules::verb_of(verb + seq![' '] + (lead + arg + tail)) == verb,
        app_rules::argument_of(verb + seq![' '] + (lead + arg + tail)) == arg,
{
    let n = verb.len() as int;
    words::lemma_piece_end(verb, 0, ' ');
    assert(words::piece_end(verb, 0, ' ') == n);
    assert(verb.subrange(0, n) =~= verb);
    let s = verb + seq![' '] + (lead + arg + tail);
    words::lemma_piece_end(s, 0, ' ');
    let j = words::piece_end(s, 0, ' ');
    if j < n {
        assert(verb[j] == s[j]);
        assert(verb.contains(' '));
    }
    assert(s[n] == ' ');
    assert(j == n);
    assert(s.subrange(0, n) =~= verb);
    assert(s.subrange(n + 1, s.len() as int) =~= lead + arg + tail);
    law_trim(lead, arg, tail);
}

/// `:goto n` puts the cursor at the start of line `n`, counted from one, or of the last
/// line if there are not so many; `0` and what is no number move nothing.
pub proof fn law_goto(v: AppView, arg: Seq<char>)
    requires
        spans::line_starts(v.editor.bytes).len() > 0,
    ensures
        ({
            let w = app_rules::went_to(v, arg).editor;
            let count = spans::line_starts(v.editor.bytes).len();
            &&& w.bytes == v.editor.bytes
            &&& all_numerals(arg) && 1 <= number(arg) <= usize::MAX ==> w.byte == 0 && w.line
                == if number(arg) <= count {
                number(arg) - 1
            } else {
                count - 1
            }
            &&& all_numerals(arg) && number(arg) == 0 ==> w == v.editor
            &&& !all_numerals(arg) && (arg.len() == 0 || arg[0] != '+') ==> w == v.editor
        }),
{
    law_reading_numbers(arg);
}

// ---------------------------------------------------------------------------
// Notes
// ---------------------------------------------------------------------------

/// Line `l` is a delimiter: `===` alone, or with a space behind.
pub open spec fn delimits(b: Seq<u8>, l: int) -> bool {
    let s = wrap::line_chars(b, l);
    &&& 0 <= l < spans::line_starts(b).len()
    &&& s.len() >= 3 && s[0] == '=' && s[1] == '=' && s[2] == '='
    &&& s.len() == 3 || s[3] == ' '
}

proof fn lemma_delimiter_from(b: Seq<u8>, l: int)
    requires
        0 <= l,
    ensures
        match editing::delimiter_from(b, l) {
            Some(k) => k >= l && delimits(b, k) && forall|j: int|
                l <= j < k ==> !#[trigger] delimits(b, j),
            None => forall|j: int| l <= j ==> !#[trigger] delimits(b, j),
        },
    decreases spans::line_starts(b).len() - l,
{
    if l < spans::line_starts(b).len() {
        lemma_openings(wrap::line_chars(b, l));
        if !highlight::delimiter_line(wrap::line_chars(b, l)) {
            lemma_delimiter_from(b, l + 1);
        }
    }
}

proof fn lemma_delimiter_before(b: Seq<u8>, l: int)
    requires
        l <= spans::line_starts(b).len(),
    ensures
        match editing::delimiter_before(b, l) {
            Some(k) => 0 <= k < l && delimits(b, k) && forall|j: int|
                k < j < l ==> !#[trigger] delimits(b, j),
            None => forall|j: int| j < l ==> !#[trigger] delimits(b, j),
        },
    decreases l,
{
    if l > 0 {
        lemma_openings(wrap::line_chars(b, l - 1));
        if !highlight::delimiter_line(wrap::line_chars(b, l - 1)) {
            lemma_delimiter_before(b, l - 1);
        }
    }
}

/// Without a filter, the keys for the next and the previous note go to the start of the
/// nearest delimiter below and above the line of the cursor; where there is none the cursor
/// stays.
pub proof fn law_note_jumps(v: AppView, l: int)
    requires
        v.filter is None,
        0 <= v.editor.line < spans::line_starts(v.editor.bytes).len(),
        delimits(v.editor.bytes, l),
    ensures
        ({
            let b = v.editor.bytes;
            let here = v.editor.line;
            let n = app_rules::note_jumped(v, true).editor;
            let p = app_rules::note_jumped(v, false).editor;
            &&& n.bytes == b && p.bytes == b
            &&& l > here && (forall|j: int| here < j < l ==> !#[trigger] delimits(b, j)) ==> n.line
                == l && n.byte == 0
            &&& l < here && (forall|j: int| l < j < here ==> !#[trigger] delimits(b, j)) ==> p.line
                == l && p.byte == 0
            &&& (forall|j: int| here < j ==> !#[trigger] delimits(b, j)) ==> n.line == here
                && n.byte == v.editor.byte
            &&& (forall|j: int| j < here ==> !#[trigger] delimits(b, j)) ==> p.line == here
                && p.byte == v.editor.byte
        }),
{
    let b = v.editor.bytes;
    let here = v.editor.line;
    lemma_delimiter_from(b, here + 1);
    lemma_delimiter_before(b, here);
}

/// A delimiter is stamped on Enter exactly if it has no `|` and its text does not open with
/// a date.
pub proof fn law_unstamped(content: Seq<char>, lead: Seq<char>, t: Seq<char>, tail: Seq<char>)
    requires
        all_spacing(lead),
        all_spacing(tail),
        tight(t),
    ensures
        content == seq!['=', '=', '='] + (lead + t + tail) ==> (editing::unstamped(content) <==> (
        content.len() == 3 || content[3] == ' ') && !content.contains('|') && !opens_dated(t)),
        !opened(content, seq!['=', '=', '=']) ==> !editing::unstamped(content),
{
    lemma_openings(content);
    if content == seq!['=', '=', '='] + (lead + t + tail) {
        lemma_header_text(lead + t + tail);
        law_trim(lead, t, tail);
        lemma_opens_dated(t);
        assert(content[0] == '=' && content[1] == '=' && content[2] == '=');
    }
    let d = seq!['=', '=', '='];
    if content.len() >= 3 && content[0] == '=' && content[1] == '=' && content[2] == '=' {
        assert(opened(content, d));
    }
}

/// Enter on such a delimiter writes its title and the stamp on the line, with ` | ` between,
/// or the stamp alone if it has no title, and puts the cursor at the start of a new line
/// below.
pub proof fn law_delimiter_is_stamped(
    v: AppView,
    stamp: Seq<char>,
    lead: Seq<char>,
    t: Seq<char>,
    tail: Seq<char>,
)
    requires
        ready(v),
        all_spacing(lead),
        all_spacing(tail),
        tight(t),
        editing::cursor_line(v.editor) == seq!['=', '=', '='] + (lead + t + tail),
        editing::cursor_line(v.editor).len() == 3 || editing::cursor_line(v.editor)[3] == ' ',
        !editing::cursor_line(v.editor).contains('|'),
        !opens_dated(t),
    ensures
        ({
            let e = v.editor;
            let b = e.bytes;
            let from = spans::line_starts(b)[e.line];
            let to = from + encode_utf8(editing::cursor_line(e)).len();
            let w = after(v, KeyCode::Enter, false, stamp);
            let ending = if key_laws::has_crlf(b) {
                seq![13u8, 10u8]
            } else {
                seq![10u8]
            };
            let text = seq!['=', '=', '=', ' '] + (if t.len() == 0 {
                stamp
            } else {
                t + seq![' ', '|', ' '] + stamp
            });
            &&& w.bytes == replaced(b, from, to, encode_utf8(text) + ending)
            &&& w.line == e.line + 1
            &&& w.byte == 0
        }),
{
    let e = v.editor;
    let b = e.bytes;
    let content = editing::cursor_line(e);
    key_laws::lemma_pressed(v, KeyCode::Enter, false, stamp);
    law_unstamped(content, lead, t, tail);
    lemma_header_text(lead + t + tail);
    law_trim(lead, t, tail);
    reveal_strlit("=== ");
    reveal_strlit(" | ");
    assert("=== "@ =~= seq!['=', '=', '=', ' ']);
    assert(" | "@ =~= seq![' ', '|', ' ']);
    let text = seq!['=', '=', '=', ' '] + (if t.len() == 0 {
        stamp
    } else {
        t + seq![' ', '|', ' '] + stamp
    });
    assert(editing::stamped(t, stamp) =~= text);
    key_laws::lemma_ending(b);
    let nl = editing::newline_of(e);
    text::lemma_encode_concat(text, nl);
    wrap::lemma_line_valid(b, e.line);
    let from = spans::line_starts(b)[e.line];
    let to = from + positions::line_len(b, e.line);
    assert(encode_utf8(content).len() == positions::line_len(b, e.line));
    assert(replaced(b, from, to, encode_utf8(text) + encode_utf8(nl)) =~= editing::spliced(
        b,
        from,
        to,
        text + nl,
    ));
}

// ---------------------------------------------------------------------------
// Idle pulls
// ---------------------------------------------------------------------------

proof fn lemma_digits_end(s: Seq<char>, i: int, n: int)
    requires
        0 <= i <= n <= s.len(),
        forall|k: int| i <= k < n ==> '0' <= #[trigger] s[k] <= '9',
        n < s.len() ==> !('0' <= s[n] <= '9'),
    ensures
        config::digits_end(s, i) == n,
    decreases n - i,
{
    if i < n {
        assert('0' <= s[i] <= '9');
        lemma_digits_end(s, i + 1, n);
    }
}

/// An interval is a number of seconds with `s` behind it, of hours with `h`, and of minutes
/// with anything else or nothing; white space around it does not count, and nothing at all
/// is no interval.
pub proof fn law_interval(lead: Seq<char>, d: Seq<char>, unit: Seq<char>, tail: Seq<char>)
    requires
        all_spacing(lead),
        all_spacing(tail),
        all_numerals(d),
        number(d) <= u64::MAX,
        tight(d + unit),
        unit.len() > 0 ==> !('0' <= unit[0] <= '9'),
    ensures
        config::interval_seconds(lead + tail) == 0,
        config::interval_seconds(lead + (d + unit) + tail) == number(d) * if unit == seq!['s'] {
            1int
        } else if unit == seq!['h'] {
            3600int
        } else {
            60int
        },
{
    let s = d + unit;
    let n = d.len() as int;
    let none = Seq::<char>::empty();
    law_trim(lead, s, tail);
    law_trim(lead, none, tail);
    assert(lead + none + tail =~= lead + tail);
    reveal_strlit("s");
    reveal_strlit("h");
    reveal_strlit("0");
    assert("s"@ =~= seq!['s']);
    assert("h"@ =~= seq!['h']);
    assert("0"@ =~= seq!['0']);
    assert forall|k: int| 0 <= k < n implies '0' <= #[trigger] s[k] <= '9' by {
        assert(s[k] == d[k]);
    }
    if unit.len() > 0 {
        assert(s[n] == unit[0]);
    }
    lemma_digits_end(s, 0, n);
    assert(s.subrange(0, n) =~= d);
    assert(s.subrange(n, s.len() as int) =~= unit);
    law_reading_numbers(d);
    lemma_number_positive(d);
    if s == seq!['0'] {
        assert(n == 1);
        assert(d =~= seq!['0']);
        reveal_with_fuel(number, 2);
        assert(d.drop_last() =~= none);
        assert(number(d) == 0);
    }
}

proof fn lemma_number_positive(s: Seq<char>)
    requires
        forall|k: int| 0 <= k < s.len() ==> '0' <= #[trigger] s[k] <= '9',
    ensures
        number(s) >= 0,
    decreases s.len(),
{
    if s.len() > 0 {
        assert('0' <= s[s.len() - 1] <= '9');
        assert forall|k: int| 0 <= k < s.drop_last().len() implies '0' <= #[trigger] s.drop_last()[k]
            <= '9' by {
            assert(s.drop_last()[k] == s[k]);
        }
        lemma_number_positive(s.drop_last());
    }
}

} // verus!
