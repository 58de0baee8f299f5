//! Spell-check engine and tokenizer.
//!
//! The engine wraps `symspell`. A user dictionary augments the main one: words
//! the user adds in the wizard go there.

use symspell::{AsciiStringStrategy, SymSpell, Verbosity};
use vstd::prelude::*;
use vstd::string::StrSliceExecFns;
use vstd::utf8::*;

use crate::highlight;
use crate::numbers;
use crate::paths;
use crate::positions;
use crate::spans;
use crate::spans::Span;
use crate::text;
use crate::unicode;
use crate::words;
use crate::wrap;

verus! {

// ---------------------------------------------------------------------------
// symspell
// ---------------------------------------------------------------------------

/// A `SymSpell` dictionary of ASCII words.
#[verifier::external_body]
pub struct Dictionary {
    inner: SymSpell<AsciiStringStrategy>,
}

/// The entries of a dictionary, in the order in which they were loaded: each a
/// word and its count.
pub uninterp spec fn lexicon(s: Dictionary) -> Seq<(Seq<char>, int)>;

/// The ASCII transliteration that `symspell` looks a word up under.
pub uninterp spec fn transliterated(s: Seq<char>) -> Seq<char>;

/// The terms that `symspell` suggests for a word at an edit distance of at most
/// two, closest ones only, in its order, given the entries that were loaded.
pub uninterp spec fn closest_terms(entries: Seq<(Seq<char>, int)>, word: Seq<char>) -> Seq<
    Seq<char>,
>;

/// The form under which a word is listed and looked up: ASCII text as it is.
pub open spec fn listed_form(s: Seq<char>) -> Seq<char> {
    if unicode::all_ascii(s) {
        s
    } else {
        transliterated(s)
    }
}

/// A word counts as known if it was loaded with a count of at least one.
pub open spec fn lists(entries: Seq<(Seq<char>, int)>, word: Seq<char>) -> bool {
    exists|i: int|
        0 <= i < entries.len() && (#[trigger] entries[i]).0 == word && entries[i].1 >= 1
}

/// The count on a dictionary line.
pub open spec fn count_on(line: Seq<char>) -> Option<int> {
    numbers::within(
        numbers::signed(words::pieces(line, ' ')[1]),
        i64::MIN as int,
        i64::MAX as int,
    )
}

/// A line of a dictionary file: a word, a space and a count. A line without a
/// space says nothing.
pub open spec fn line_readable(line: Seq<char>) -> bool {
    words::pieces(line, ' ').len() >= 2 ==> count_on(line) is Some
}

/// What a dictionary line adds to the entries.
pub open spec fn with_line(entries: Seq<(Seq<char>, int)>, line: Seq<char>) -> Seq<
    (Seq<char>, int),
> {
    if words::pieces(line, ' ').len() >= 2 {
        entries.push((listed_form(words::pieces(line, ' ')[0]), count_on(line)->Some_0))
    } else {
        entries
    }
}

/// `SymSpell::default`: an engine without words.
#[verifier::external_body]
fn new_dictionary() -> (r: Dictionary)
    ensures
        lexicon(r).len() == 0,
{
    Dictionary { inner: SymSpell::default() }
}

/// `SymSpell::load_dictionary_line`, with the word in the first column, its count
/// in the second, and a space between: the entry is added to those loaded before.
/// It panics on a count that is no 64-bit number.
#[verifier::external_body]
fn load_line(s: &mut Dictionary, line: &str)
    requires
        line_readable(line@),
    ensures
        lexicon(*final(s)) == with_line(lexicon(*old(s)), line@),
{
    s.inner.load_dictionary_line(line, 0, 1, " ");
}

/// `SymSpell::lookup` with no edits allowed: it finds the word itself, if it is
/// listed, and nothing else.
#[verifier::external_body]
fn finds_word(s: &Dictionary, word: &str) -> (r: bool)
    ensures
        r == lists(
            lexicon(*s),
            if unicode::all_ascii(word@) {
                word@
            } else {
                transliterated(word@)
            },
        ),
{
    !s.inner.lookup(word, Verbosity::Top, 0).is_empty()
}

/// `SymSpell::lookup` with at most two edits, closest suggestions only: its terms.
#[verifier::external_body]
fn find_closest(s: &Dictionary, word: &str) -> (r: Vec<String>)
    ensures
        words::texts(r@) == closest_terms(lexicon(*s), word@),
{
    s.inner.lookup(word, Verbosity::Closest, 2).into_iter().map(|s| s.term).collect()
}

// ---------------------------------------------------------------------------
// Errors and sources
// ---------------------------------------------------------------------------

#[derive(Debug)]
pub enum SpellError {
    NoConfigDir,
    DictMissing(String),
    Download(String),
    Io(String),
    Engine(String),
}

pub open spec fn error_text(e: SpellError) -> Seq<char> {
    match e {
        SpellError::NoConfigDir => "no config directory available"@,
        SpellError::DictMissing(p) => "dictionary file missing at "@ + p@,
        SpellError::Download(m) => "download error: "@ + m@,
        SpellError::Io(m) => "i/o error: "@ + m@,
        SpellError::Engine(m) => "spell engine error: "@ + m@,
    }
}

fn joined(head: &str, tail: &str) -> (r: String)
    ensures
        r@ == head@ + tail@,
{
    let mut out = head.to_owned();
    out.append(tail);
    out
}

impl SpellError {
    /// What the error says.
    pub fn message(&self) -> (r: String)
        ensures
            r@ == error_text(*self),
    {
        match self {
            SpellError::NoConfigDir => "no config directory available".to_owned(),
            SpellError::DictMissing(p) => joined("dictionary file missing at ", p.as_str()),
            SpellError::Download(m) => joined("download error: ", m.as_str()),
            SpellError::Io(m) => joined("i/o error: ", m.as_str()),
            SpellError::Engine(m) => joined("spell engine error: ", m.as_str()),
        }
    }
}

/// Where the English dictionary is found.
pub const DICT_URL_EN: &'static str = "https://raw.githubusercontent.com/wolfgarbe/SymSpell/master/SymSpell/frequency_dictionary_en_82_765.txt";

/// The URL of the dictionary for a language.
pub fn dict_url(lang: &str) -> (r: Option<&'static str>)
    ensures
        r == if lang@ == "en"@ {
            Some(DICT_URL_EN)
        } else {
            None
        },
{
    if text::same(lang, "en") {
        Some(DICT_URL_EN)
    } else {
        None
    }
}

/// Name of the cached dictionary file for a language.
pub fn dict_file_name(lang: &str) -> (r: String)
    ensures
        r@ == "dictionary_"@ + lang@ + ".txt"@,
{
    let mut out = String::from_str("dictionary_");
    out.append(lang);
    out.append(".txt");
    out
}

/// The directory of the dictionaries, in the platform's directory for settings.
pub fn config_dir(base: Option<&str>) -> (r: Option<String>)
    ensures
        match paths::dir_view(base) {
            Some(b) => r is Some && r->Some_0@ == paths::inside(b, "jotlog"@),
            None => r is None,
        },
{
    match base {
        Some(b) => Some(paths::join(b, "jotlog")),
        None => None,
    }
}

/// Where the dictionary for a language is cached.
pub open spec fn dict_place(base: Option<Seq<char>>, lang: Seq<char>) -> Option<Seq<char>> {
    paths::inside_some(
        paths::inside_some(base, "jotlog"@),
        "dictionary_"@ + lang + ".txt"@,
    )
}

pub fn dict_path(base: Option<&str>, lang: &str) -> (r: Option<String>)
    ensures
        match dict_place(paths::dir_view(base), lang@) {
            Some(p) => r is Some && r->Some_0@ == p,
            None => r is None,
        },
{
    match config_dir(base) {
        Some(d) => Some(paths::join(d.as_str(), dict_file_name(lang).as_str())),
        None => None,
    }
}

/// Where the words of the user are kept.
pub fn custom_dict_path(base: Option<&str>) -> (r: Option<String>)
    ensures
        match paths::inside_some(
            paths::inside_some(paths::dir_view(base), "jotlog"@),
            "dictionary.txt"@,
        ) {
            Some(p) => r is Some && r->Some_0@ == p,
            None => r is None,
        },
{
    match config_dir(base) {
        Some(d) => Some(paths::join(d.as_str(), "dictionary.txt")),
        None => None,
    }
}

/// The dictionary for `lang`, where `exists` tells whether the file at its place is
/// there.
pub fn find_dictionary(base: Option<&str>, lang: &str, exists: bool) -> (r: Result<
    String,
    SpellError,
>)
    ensures
        match dict_place(paths::dir_view(base), lang@) {
            None => r is Err && r->Err_0 is NoConfigDir,
            Some(p) => if exists {
                r is Ok && r->Ok_0@ == p
            } else {
                r is Err && r->Err_0 is DictMissing && r->Err_0->DictMissing_0@ == p
            },
        },
{
    match dict_path(base, lang) {
        None => Err(SpellError::NoConfigDir),
        Some(p) => if exists {
            Ok(p)
        } else {
            Err(SpellError::DictMissing(p))
        },
    }
}

/// What is fetched to get the dictionary for `lang`, and where it goes.
pub struct Download {
    pub url: &'static str,
    pub path: String,
}

/// The download of the dictionary for `lang`.
pub fn download_dictionary(base: Option<&str>, lang: &str) -> (r: Result<Download, SpellError>)
    ensures
        if lang@ != "en"@ {
            r is Err && r->Err_0 is Download && r->Err_0->Download_0@
                == "no URL configured for '"@ + lang@ + "'"@
        } else {
            match dict_place(paths::dir_view(base), lang@) {
                None => r is Err && r->Err_0 is NoConfigDir,
                Some(p) => r is Ok && r->Ok_0.url == DICT_URL_EN && r->Ok_0.path@ == p,
            }
        },
{
    match dict_url(lang) {
        None => {
            let mut m = joined("no URL configured for '", lang);
            m.append("'");
            Err(SpellError::Download(m))
        },
        Some(url) => match dict_path(base, lang) {
            None => Err(SpellError::NoConfigDir),
            Some(path) => Ok(Download { url, path }),
        },
    }
}

// ---------------------------------------------------------------------------
// Engine
// ---------------------------------------------------------------------------

pub struct SpellEngine {
    dictionary: Dictionary,
    user_words: Vec<String>,
}

/// The words of an engine: the entries of its dictionary and the user's words.
pub struct EngineView {
    pub entries: Seq<(Seq<char>, int)>,
    pub user: Set<Seq<char>>,
}

/// The texts of a list, as a set.
pub open spec fn text_set(v: Seq<String>) -> Set<Seq<char>> {
    words::texts(v).to_set()
}

impl View for SpellEngine {
    type V = EngineView;

    closed spec fn view(&self) -> EngineView {
        EngineView { entries: lexicon(self.dictionary), user: text_set(self.user_words@) }
    }
}

/// The entries of the first `n` lines of a dictionary.
pub open spec fn entries_upto(lines: Seq<Seq<char>>, n: int) -> Seq<(Seq<char>, int)>
    decreases n,
{
    if n <= 0 {
        Seq::empty()
    } else {
        with_line(entries_upto(lines, n - 1), lines[n - 1])
    }
}

/// The lines of a text: what lies between newlines, without a `\r` at its end.
pub open spec fn text_lines(s: Seq<char>) -> Seq<Seq<char>> {
    words::pieces(s, '\n').map_values(|l: Seq<char>| without_cr(l))
}

pub open spec fn without_cr(l: Seq<char>) -> Seq<char> {
    if l.len() > 0 && l.last() == '\r' {
        l.drop_last()
    } else {
        l
    }
}

/// Every line of a dictionary can be read.
pub open spec fn dictionary_readable(s: Seq<char>) -> bool {
    forall|i: int| 0 <= i < text_lines(s).len() ==> line_readable(#[trigger] text_lines(s)[i])
}

/// The words of the first `n` lines of a user dictionary: one word per line, in
/// lower case.
pub open spec fn user_words_upto(lines: Seq<Seq<char>>, n: int) -> Set<Seq<char>>
    decreases n,
{
    if n <= 0 {
        Set::empty()
    } else {
        let before = user_words_upto(lines, n - 1);
        let w = words::trim(lines[n - 1]);
        if w.len() > 0 {
            before.insert(words::lower(w))
        } else {
            before
        }
    }
}

/// The words of a user dictionary.
pub open spec fn user_words_in(s: Option<Seq<char>>) -> Set<Seq<char>> {
    match s {
        Some(t) => user_words_upto(
            words::pieces(t, '\n'),
            words::pieces(t, '\n').len() as int,
        ),
        None => Set::empty(),
    }
}

pub fn has_text(v: &Vec<String>, s: &str) -> (r: bool)
    ensures
        r == text_set(v@).contains(s@),
{
    let mut i: usize = 0;
    while i < v.len()
        invariant
            i <= v.len(),
            forall|k: int| 0 <= k < i ==> #[trigger] words::texts(v@)[k] != s@,
        decreases v.len() - i,
    {
        if text::same(v[i].as_str(), s) {
            proof {
                assert(words::texts(v@)[i as int] == s@);
                assert(words::texts(v@).contains(s@));
            }
            return true;
        }
        proof {
            assert(words::texts(v@)[i as int] == v@[i as int]@);
        }
        i += 1;
    }
    proof {
        assert(!words::texts(v@).contains(s@));
    }
    false
}

pub fn add_text(v: &mut Vec<String>, s: String)
    ensures
        text_set(final(v)@) == text_set(old(v)@).insert(s@),
{
    let ghost before = words::texts(v@);
    if has_text(v, s.as_str()) {
        proof {
            assert(text_set(v@).insert(s@) =~= text_set(v@));
        }
        return;
    }
    v.push(s);
    proof {
        assert(words::texts(v@) =~= before.push(s@));
        assert(before.push(s@).to_set() =~= before.to_set().insert(s@)) by {
            assert forall|x: Seq<char>| before.push(s@).contains(x) <==> before.contains(x) || x
                == s@ by {
                if before.contains(x) {
                    let k = choose|k: int| 0 <= k < before.len() && before[k] == x;
                    assert(before.push(s@)[k] == x);
                }
                if x == s@ {
                    assert(before.push(s@)[before.len() as int] == x);
                }
            }
        }
    }
}

/// A piece of a line without a `\r` at its end.
fn strip_cr(s: &str) -> (r: &str)
    ensures
        r@ == without_cr(s@),
{
    let n = s.unicode_len();
    if n > 0 && s.get_char(n - 1) == '\r' {
        let r = s.substring_char(0, n - 1);
        proof {
            assert(r@ =~= s@.drop_last());
        }
        r
    } else {
        s
    }
}

/// The line can be read.
fn check_line(line: &str) -> (r: bool)
    ensures
        r == line_readable(line@),
{
    let parts = words::split_on(line, ' ');
    if parts.len() < 2 {
        return true;
    }
    proof {
        assert(words::texts(parts@)[1] == parts@[1]@);
    }
    numbers::parse_i64(parts[1].as_str()).is_some()
}

impl SpellEngine {
    /// An engine with the words of a dictionary and of the user's dictionary, if
    /// there is one.
    pub fn load(dictionary: &str, user: Option<&str>) -> (r: Result<Self, SpellError>)
        ensures
            match r {
                Ok(e) => dictionary_readable(dictionary@) && e@.entries == entries_upto(
                    text_lines(dictionary@),
                    text_lines(dictionary@).len() as int,
                ) && e@.user == user_words_in(
                    match user {
                        Some(t) => Some(t@),
                        None => None,
                    },
                ),
                Err(e) => !dictionary_readable(dictionary@) && e is Engine && e->Engine_0@
                    == "symspell failed to load dictionary"@,
            },
    {
        let mut entries = new_dictionary();
        let pieces = words::split_on(dictionary, '\n');
        let ghost lines = text_lines(dictionary@);
        let mut i: usize = 0;
        proof {
            assert(lexicon(entries) =~= Seq::<(Seq<char>, int)>::empty());
        }
        while i < pieces.len()
            invariant
                i <= pieces.len(),
                words::texts(pieces@) == words::pieces(dictionary@, '\n'),
                lines == text_lines(dictionary@),
                lexicon(entries) == entries_upto(lines, i as int),
                forall|k: int| 0 <= k < i ==> line_readable(#[trigger] lines[k]),
            decreases pieces.len() - i,
        {
            let line = strip_cr(pieces[i].as_str());
            proof {
                assert(words::texts(pieces@)[i as int] == pieces@[i as int]@);
                assert(lines[i as int] == line@);
            }
            if !check_line(line) {
                return Err(SpellError::Engine("symspell failed to load dictionary".to_owned()));
            }
            load_line(&mut entries, line);
            i += 1;
        }
        let mut user_words: Vec<String> = Vec::new();
        proof {
            assert(text_set(user_words@) =~= Set::<Seq<char>>::empty());
        }
        if let Some(t) = user {
            read_user_words(t, &mut user_words);
        }
        Ok(SpellEngine { dictionary: entries, user_words })
    }

    /// Returns `true` if `word` is in the main or user dictionary.
    pub fn is_correct(&self, word: &str) -> (r: bool)
        ensures
            r == correct(self@, word@),
    {
        let lower = words::to_ascii_lowercase(word);
        if has_text(&self.user_words, lower.as_str()) {
            return true;
        }
        finds_word(&self.dictionary, lower.as_str())
    }

    /// Top suggestions for a misspelled `word`. Empty if there are none.
    pub fn suggest(&self, word: &str, max: usize) -> (r: Vec<String>)
        ensures
            words::texts(r@) == suggestions(self@, word@, max as int),
    {
        let lower = words::to_ascii_lowercase(word);
        let found = find_closest(&self.dictionary, lower.as_str());
        first_texts(found, max)
    }

    /// Add `word` to the user dictionary. Returns the line that goes into its
    /// file; `None` for a blank word, which is not added.
    pub fn add_to_user_dict(&mut self, word: &str) -> (r: Option<String>)
        ensures
            match r {
                Some(l) => words::trim(word@).len() > 0 && l@ == words::lower(words::trim(word@))
                    && final(self)@ == (EngineView {
                    user: old(self)@.user.insert(l@),
                    ..old(self)@
                }),
                None => words::trim(word@).len() == 0 && final(self)@ == old(self)@,
            },
    {
        let lower = words::to_ascii_lowercase(words::trimmed(word));
        if lower.as_str().is_empty() {
            return None;
        }
        add_text(&mut self.user_words, lower.as_str().to_owned());
        Some(lower)
    }
}

/// A word is correct if, in lower case, the user added it or the dictionary lists
/// it.
pub open spec fn correct(e: EngineView, word: Seq<char>) -> bool {
    e.user.contains(words::lower(word)) || lists(e.entries, listed_form(words::lower(word)))
}

/// At most the first `max` of a list.
pub open spec fn first_of(v: Seq<Seq<char>>, max: int) -> Seq<Seq<char>> {
    if v.len() > max {
        v.subrange(0, max)
    } else {
        v
    }
}

/// The suggestions for a word, at most `max`.
pub open spec fn suggestions(e: EngineView, word: Seq<char>, max: int) -> Seq<Seq<char>> {
    first_of(closest_terms(e.entries, words::lower(word)), max)
}

/// At most the first `max` of the suggestions found.
pub fn first_texts(found: Vec<String>, max: usize) -> (r: Vec<String>)
    ensures
        words::texts(r@) == first_of(words::texts(found@), max as int),
{
    let mut out: Vec<String> = Vec::new();
    let mut i: usize = 0;
    while i < found.len() && i < max
        invariant
            i <= found.len(),
            i <= max,
            words::texts(out@) == words::texts(found@).subrange(0, i as int),
        decreases found.len() - i,
    {
        let ghost before = words::texts(out@);
        out.push(found[i].as_str().to_owned());
        i += 1;
        proof {
            assert(words::texts(out@) =~= before.push(found@[i - 1]@));
            assert(words::texts(out@) =~= words::texts(found@).subrange(0, i as int));
        }
    }
    proof {
        assert(words::texts(out@) =~= first_of(words::texts(found@), max as int));
    }
    out
}

fn read_user_words(text: &str, out: &mut Vec<String>)
    requires
        text_set(old(out)@) == Set::<Seq<char>>::empty(),
    ensures
        text_set(final(out)@) == user_words_in(Some(text@)),
{
    let pieces = words::split_on(text, '\n');
    let mut i: usize = 0;
    while i < pieces.len()
        invariant
            i <= pieces.len(),
            words::texts(pieces@) == words::pieces(text@, '\n'),
            text_set(out@) == user_words_upto(words::texts(pieces@), i as int),
        decreases pieces.len() - i,
    {
        proof {
            assert(words::texts(pieces@)[i as int] == pieces@[i as int]@);
        }
        let w = words::trimmed(pieces[i].as_str());
        if !w.is_empty() {
            add_text(out, words::to_ascii_lowercase(w));
        }
        i += 1;
    }
}

// ---------------------------------------------------------------------------
// Tokenizer
// ---------------------------------------------------------------------------

/// A word found by the tokenizer, with its absolute byte range in the source.
#[derive(Debug)]
pub struct WordToken {
    pub span: Span,
    pub text: String,
}

pub open spec fn is_url(s: Seq<char>, i: int) -> bool {
    text::occurs_at(s, i, "http://"@) || text::occurs_at(s, i, "https://"@) || text::occurs_at(
        s,
        i,
        "ftp://"@,
    ) || text::occurs_at(s, i, "file://"@)
}

/// The next white space from `i` on, or the end.
pub open spec fn next_white(s: Seq<char>, i: int) -> int
    decreases s.len() - i,
{
    if 0 <= i < s.len() && !words::is_white(s[i]) {
        next_white(s, i + 1)
    } else {
        i
    }
}

/// A tag: `#` and the tag characters behind it, which are not all digits.
pub open spec fn is_tag(s: Seq<char>, i: int) -> bool {
    s[i] == '#' && highlight::not_all_digits(s, i + 1, highlight::tag_stop(s, i + 1))
}

pub open spec fn is_todo_keyword(s: Seq<char>, i: int) -> bool {
    (i == 0 || words::is_white(s[i - 1])) && (text::occurs_at(s, i, "TODO:"@) || text::occurs_at(
        s,
        i,
        "DONE:"@,
    ))
}

pub open spec fn is_checkbox(s: Seq<char>, i: int) -> bool {
    text::occurs_at(s, i, "- [ ]"@) || text::occurs_at(s, i, "- [x]"@) || text::occurs_at(
        s,
        i,
        "- [X]"@,
    )
}

/// What a token with something else than letters in it may hold.
pub open spec fn joiner(c: char) -> bool {
    c == '_' || c == '-' || c == '/' || c == '.'
}

/// The end of the token at `i`: letters, digits, and apostrophes and joiners that
/// something follows.
pub open spec fn token_end(s: Seq<char>, i: int) -> int
    decreases s.len() - i,
{
    if 0 <= i < s.len() && (unicode::letter_or_number(s[i]) || ((s[i] == '\'' || joiner(s[i])) && i
        + 1 < s.len())) {
        token_end(s, i + 1)
    } else {
        i
    }
}

/// Only letters and apostrophes.
pub open spec fn only_letters(s: Seq<char>, i: int, j: int) -> bool {
    forall|k: int| i <= k < j ==> unicode::letter(#[trigger] s[k]) || s[k] == '\''
}

/// The end of a token without the apostrophes at its end.
pub open spec fn trim_apostrophes(s: Seq<char>, i: int, j: int) -> int
    decreases j - i,
{
    if i < j && s[j - 1] == '\'' {
        trim_apostrophes(s, i, j - 1)
    } else {
        j
    }
}

/// All letters of a word are capitals.
pub open spec fn all_capitals(s: Seq<char>, i: int, j: int) -> bool {
    forall|k: int| i <= k < j && unicode::letter(#[trigger] s[k]) ==> unicode::capital(s[k])
}

/// CamelCase or PascalCase: a capital letter inside a word whose letters are not
/// all capitals.
pub open spec fn camel(s: Seq<char>, i: int, j: int) -> bool {
    (exists|k: int| i < k < j && unicode::capital(#[trigger] s[k])) && !all_capitals(s, i, j)
}

/// The token `s[i..j]` is a word to be checked: letters only, at least two, and
/// neither CamelCase nor PascalCase.
pub open spec fn checked_word(s: Seq<char>, i: int, j: int) -> bool {
    let e = trim_apostrophes(s, i, j);
    only_letters(s, i, j) && e - i >= 2 && !camel(s, i, e)
}

/// The words of a line of prose from character `i` on, as character ranges.
pub open spec fn prose_words(s: Seq<char>, i: int, in_code: bool) -> Seq<(int, int)>
    decreases s.len() - i,
{
    if i < 0 || i >= s.len() {
        Seq::empty()
    } else if s[i] == '`' {
        prose_words(s, i + 1, !in_code)
    } else if in_code {
        prose_words(s, i + 1, in_code)
    } else {
        proof {
            lemma_skips(s, i);
        }
        if is_url(s, i) {
            prose_words(s, next_white(s, i), in_code)
        } else if is_tag(s, i) {
            prose_words(s, highlight::tag_stop(s, i + 1), in_code)
        } else if is_todo_keyword(s, i) || is_checkbox(s, i) {
            prose_words(s, i + 5, in_code)
        } else if !unicode::letter(s[i]) {
            prose_words(s, i + 1, in_code)
        } else {
            let j = token_end(s, i);
            let rest = prose_words(s, j, in_code);
            if checked_word(s, i, j) {
                seq![(i, trim_apostrophes(s, i, j))] + rest
            } else {
                rest
            }
        }
    }
}

pub proof fn lemma_next_white(s: Seq<char>, i: int)
    requires
        0 <= i <= s.len(),
    ensures
        i <= next_white(s, i) <= s.len(),
    decreases s.len() - i,
{
    if i < s.len() && !words::is_white(s[i]) {
        lemma_next_white(s, i + 1);
    }
}

pub proof fn lemma_token_end(s: Seq<char>, i: int)
    requires
        0 <= i <= s.len(),
    ensures
        i <= token_end(s, i) <= s.len(),
    decreases s.len() - i,
{
    if i < s.len() && (unicode::letter_or_number(s[i]) || ((s[i] == '\'' || joiner(s[i])) && i + 1
        < s.len())) {
        lemma_token_end(s, i + 1);
    }
}

pub proof fn lemma_trim_apostrophes(s: Seq<char>, i: int, j: int)
    requires
        i <= j,
    ensures
        i <= trim_apostrophes(s, i, j) <= j,
    decreases j - i,
{
    if i < j && s[j - 1] == '\'' {
        lemma_trim_apostrophes(s, i, j - 1);
    }
}

/// Every skip goes forward.
pub proof fn lemma_skips(s: Seq<char>, i: int)
    requires
        0 <= i < s.len(),
    ensures
        is_url(s, i) ==> i < next_white(s, i) <= s.len(),
        i + 1 <= highlight::tag_stop(s, i + 1) <= s.len(),
        is_todo_keyword(s, i) || is_checkbox(s, i) ==> i + 5 <= s.len(),
        unicode::letter(s[i]) ==> i < token_end(s, i) <= s.len(),
{
    if is_url(s, i) {
        reveal_strlit("http://");
        reveal_strlit("https://");
        reveal_strlit("ftp://");
        reveal_strlit("file://");
        let p = if text::occurs_at(s, i, "http://"@) {
            "http://"@
        } else if text::occurs_at(s, i, "https://"@) {
            "https://"@
        } else if text::occurs_at(s, i, "ftp://"@) {
            "ftp://"@
        } else {
            "file://"@
        };
        assert(s.subrange(i, i + p.len())[0] == p[0]);
        assert(s[i] == 'h' || s[i] == 'f');
        lemma_next_white(s, i + 1);
    }
    highlight::lemma_tag_stop(s, i + 1);
    reveal_strlit("TODO:");
    reveal_strlit("DONE:");
    reveal_strlit("- [ ]");
    reveal_strlit("- [x]");
    reveal_strlit("- [X]");
    if unicode::letter(s[i]) {
        lemma_token_end(s, i + 1);
    }
}

fn chars_at(cs: &Vec<char>, i: usize, pat: &str) -> (r: bool)
    ensures
        r == text::occurs_at(cs@, i as int, pat@),
{
    let p = text::chars_of(pat);
    if i > cs.len() || p.len() > cs.len() - i {
        return false;
    }
    let mut k: usize = 0;
    while k < p.len()
        invariant
            k <= p.len(),
            p@ == pat@,
            i + p.len() <= cs.len(),
            forall|j: int| 0 <= j < k ==> cs@[i + j] == #[trigger] p@[j],
        decreases p.len() - k,
    {
        if cs[i + k] != p[k] {
            proof {
                if text::occurs_at(cs@, i as int, pat@) {
                    assert(cs@.subrange(i as int, i + p@.len())[k as int] == p@[k as int]);
                }
            }
            return false;
        }
        k += 1;
    }
    proof {
        assert(cs@.subrange(i as int, i + p@.len()) =~= p@);
    }
    true
}

/// Where a skip at `i` ends: a URL, a tag, a todo keyword or a checkbox.
fn skip_at(cs: &Vec<char>, i: usize) -> (r: Option<usize>)
    requires
        i < cs.len(),
    ensures
        r matches Some(j) ==> i < j <= cs.len(),
        match r {
            Some(j) => j == if is_url(cs@, i as int) {
                next_white(cs@, i as int)
            } else if is_tag(cs@, i as int) {
                highlight::tag_stop(cs@, i + 1)
            } else {
                i + 5
            },
            None => true,
        },
        r is Some <==> is_url(cs@, i as int) || is_tag(cs@, i as int) || is_todo_keyword(
            cs@,
            i as int,
        ) || is_checkbox(cs@, i as int),
{
    proof {
        lemma_skips(cs@, i as int);
    }
    if chars_at(cs, i, "http://") || chars_at(cs, i, "https://") || chars_at(cs, i, "ftp://")
        || chars_at(cs, i, "file://") {
        let mut j: usize = i;
        while j < cs.len() && !words::is_whitespace(cs[j])
            invariant
                i <= j <= cs.len(),
                next_white(cs@, j as int) == next_white(cs@, i as int),
            decreases cs.len() - j,
        {
            j += 1;
        }
        return Some(j);
    }
    if cs[i] == '#' {
        if let Some(j) = highlight::find_tag_end(cs, i) {
            return Some(j);
        }
    }
    if (i == 0 || words::is_whitespace(cs[i - 1])) && (chars_at(cs, i, "TODO:") || chars_at(
        cs,
        i,
        "DONE:",
    )) {
        return Some(i + 5);
    }
    if chars_at(cs, i, "- [ ]") || chars_at(cs, i, "- [x]") || chars_at(cs, i, "- [X]") {
        return Some(i + 5);
    }
    None
}

/// The end of the token at `i`, and whether it holds letters and apostrophes only.
fn scan_token(cs: &Vec<char>, i: usize) -> (r: (usize, bool))
    requires
        i <= cs.len(),
    ensures
        r.0 == token_end(cs@, i as int),
        i <= r.0 <= cs.len(),
        r.1 == only_letters(cs@, i as int, r.0 as int),
{
    let mut j: usize = i;
    let mut plain = true;
    while j < cs.len()
        invariant
            i <= j <= cs.len(),
            token_end(cs@, j as int) == token_end(cs@, i as int),
            plain == only_letters(cs@, i as int, j as int),
        decreases cs.len() - j,
    {
        let c = cs[j];
        let ghost before = plain;
        if unicode::is_letter(c) {
        } else if c == '\'' && j < cs.len() - 1 {
        } else if unicode::is_number(c) || ((c == '_' || c == '-' || c == '/' || c == '.') && j
            < cs.len() - 1) {
            plain = false;
            proof {
                assert(!(unicode::letter(cs@[j as int]) || cs@[j as int] == '\''));
            }
        } else {
            return (j, plain);
        }
        j += 1;
    }
    (j, plain)
}

/// Heuristic: the word has at least one uppercase letter not at its start, and
/// a letter that is not uppercase.
fn is_camel_or_pascal(cs: &Vec<char>, i: usize, j: usize) -> (r: bool)
    requires
        i < j <= cs.len(),
    ensures
        r == camel(cs@, i as int, j as int),
{
    let mut inside = false;
    let mut capitals = true;
    let mut k: usize = i;
    while k < j
        invariant
            i <= k <= j <= cs.len(),
            inside <==> exists|m: int| i < m < k && unicode::capital(#[trigger] cs@[m]),
            capitals <==> all_capitals(cs@, i as int, k as int),
        decreases j - k,
    {
        let c = cs[k];
        if unicode::is_capital(c) {
            if k > i {
                inside = true;
                proof {
                    assert(unicode::capital(cs@[k as int]));
                }
            }
        } else if unicode::is_letter(c) {
            capitals = false;
            proof {
                assert(unicode::letter(cs@[k as int]));
            }
        }
        k += 1;
    }
    inside && !capitals
}

/// Character ranges as byte ranges of a file in which the line starts at `base`.
pub open spec fn placed(s: Seq<char>, base: int, ws: Seq<(int, int)>) -> Seq<(int, int)> {
    ws.map_values(
        |w: (int, int)|
            (base + text::byte_offset(s, w.0), base + text::byte_offset(s, w.1)),
    )
}

pub open spec fn token_spans(v: Seq<WordToken>) -> Seq<(int, int)> {
    v.map_values(|t: WordToken| (t.span.start as int, t.span.end as int))
}

/// Every token's text is what its span covers.
pub open spec fn texts_match(b: Seq<u8>, v: Seq<WordToken>) -> bool {
    forall|k: int|
        0 <= k < v.len() ==> (#[trigger] v[k]).span.lies_in(b) && encode_utf8(v[k].text@)
            == v[k].span.of(b)
}

/// The words of a line of prose that lies at byte `base` of the source.
fn tokenize_prose_line(source: &str, base: usize, content: &str, out: &mut Vec<WordToken>)
    requires
        text::occurs_at(encode_utf8(source@), base as int, encode_utf8(content@)),
        text::on_boundary(encode_utf8(source@), base as int),
        text::on_boundary(encode_utf8(source@), base + encode_utf8(content@).len()),
        texts_match(encode_utf8(source@), old(out)@),
    ensures
        texts_match(encode_utf8(source@), final(out)@),
        token_spans(final(out)@) == token_spans(old(out)@) + placed(
            content@,
            base as int,
            prose_words(content@, 0, false),
        ),
{
    let cs = text::chars_of(content);
    let total = text::byte_len(source);
    let ghost start = token_spans(out@);
    let ghost all = prose_words(content@, 0, false);
    let mut in_code = false;
    let mut i: usize = 0;
    proof {
        assert(start + placed(content@, base as int, all) =~= token_spans(out@) + placed(
            content@,
            base as int,
            prose_words(content@, 0, false),
        ));
    }
    while i < cs.len()
        invariant
            i <= cs.len(),
            cs@ == content@,
            total == encode_utf8(source@).len(),
            text::occurs_at(encode_utf8(source@), base as int, encode_utf8(content@)),
            text::on_boundary(encode_utf8(source@), base as int),
            text::on_boundary(encode_utf8(source@), base + encode_utf8(content@).len()),
            texts_match(encode_utf8(source@), out@),
            token_spans(out@) + placed(
                content@,
                base as int,
                prose_words(content@, i as int, in_code),
            ) == start + placed(content@, base as int, all),
        decreases cs.len() - i,
    {
        if cs[i] == '`' {
            in_code = !in_code;
            i += 1;
        } else if in_code {
            i += 1;
        } else if let Some(j) = skip_at(&cs, i) {
            i = j;
        } else if !unicode::is_letter(cs[i]) {
            i += 1;
        } else {
            let (j, plain) = scan_token(&cs, i);
            proof {
                lemma_skips(cs@, i as int);
                lemma_trim_apostrophes(cs@, i as int, j as int);
            }
            let ghost before = token_spans(out@);
            let ghost rest = prose_words(content@, j as int, in_code);
            let mut e: usize = j;
            while e > i && cs[e - 1] == '\''
                invariant
                    i <= e <= j <= cs.len(),
                    trim_apostrophes(cs@, i as int, e as int) == trim_apostrophes(
                        cs@,
                        i as int,
                        j as int,
                    ),
                decreases e - i,
            {
                e -= 1;
            }
            if plain && e - i >= 2 && !is_camel_or_pascal(&cs, i, e) {
                let word = content.substring_char(i, e);
                let from = wrap::byte_at(content, i);
                let to = wrap::byte_at(content, e);
                proof {
                    lemma_word_span(source@, base as int, content@, i as int, e as int);
                }
                let ghost older = out@;
                out.push(
                    WordToken { span: Span::new(base + from, base + to), text: word.to_owned() },
                );
                proof {
                    assert forall|k: int| 0 <= k < out@.len() implies (#[trigger] out@[k]).span.lies_in(
                        encode_utf8(source@),
                    ) && encode_utf8(out@[k].text@) == out@[k].span.of(encode_utf8(source@)) by {
                        if k < older.len() {
                            assert(out@[k] == older[k]);
                        }
                    }
                    assert(token_spans(out@) =~= before.push((base + from, base + to)));
                    let here = seq![(i as int, e as int)];
                    assert(placed(content@, base as int, here + rest) =~= placed(
                        content@,
                        base as int,
                        here,
                    ) + placed(content@, base as int, rest));
                    assert(token_spans(out@) + placed(content@, base as int, rest) =~= before
                        + placed(content@, base as int, here + rest));
                }
            }
            i = j;
        }
    }
    proof {
        assert(placed(content@, base as int, prose_words(content@, i as int, in_code))
            =~= Seq::<(int, int)>::empty());
        assert(token_spans(out@) =~= start + placed(content@, base as int, all));
    }
}

/// The characters `i..j` of a line lie in the source where the line does.
proof fn lemma_word_span(source: Seq<char>, base: int, content: Seq<char>, i: int, j: int)
    requires
        text::occurs_at(encode_utf8(source), base, encode_utf8(content)),
        text::on_boundary(encode_utf8(source), base),
        text::on_boundary(encode_utf8(source), base + encode_utf8(content).len()),
        0 <= i <= j <= content.len(),
    ensures
        base + text::byte_offset(content, i) <= base + text::byte_offset(content, j)
            <= encode_utf8(source).len(),
        text::on_boundary(encode_utf8(source), base + text::byte_offset(content, i)),
        text::on_boundary(encode_utf8(source), base + text::byte_offset(content, j)),
        encode_utf8(content.subrange(i, j)) == encode_utf8(source).subrange(
            base + text::byte_offset(content, i),
            base + text::byte_offset(content, j),
        ),
{
    let b = encode_utf8(source);
    let c = encode_utf8(content);
    let x = text::byte_offset(content, i);
    let y = text::byte_offset(content, j);
    text::lemma_byte_subrange(content, i, j);
    text::lemma_offset_on_boundary(content, i);
    text::lemma_offset_on_boundary(content, j);
    let piece = b.subrange(base, base + c.len());
    assert(piece == c);
    text::lemma_boundary_piece(b, base, base + c.len(), x);
    text::lemma_boundary_piece(b, base, base + c.len(), y);
    assert(c.subrange(x, y) =~= b.subrange(base + x, base + y));
}

/// A line that opens or closes a block of code.
pub open spec fn fence_text(line: Seq<char>) -> bool {
    let t = words::trim_start(line);
    text::begins_with(t, "```"@) || text::begins_with(t, "~~~"@)
}

fn is_fence_text(line: &str) -> (r: bool)
    ensures
        r == fence_text(line@),
{
    let t = words::trimmed_start(line);
    text::starts_with(t, "```") || text::starts_with(t, "~~~")
}

/// The characters of line `l` of a file, its newline left out.
pub open spec fn whole_line(b: Seq<u8>, l: int) -> Seq<char> {
    let starts = spans::line_starts(b);
    decode_utf8(b.subrange(starts[l], starts[l + 1] - 1))
}

/// Whether a block of code is open after the first `l` lines.
pub open spec fn in_block(b: Seq<u8>, l: int) -> bool
    decreases l,
{
    if l <= 0 {
        false
    } else {
        in_block(b, l - 1) != fence_text(whole_line(b, l - 1))
    }
}

/// `s` without the `\r` at its end.
pub open spec fn without_returns(s: Seq<char>) -> Seq<char>
    decreases s.len(),
{
    if s.len() > 0 && s.last() == '\r' {
        without_returns(s.drop_last())
    } else {
        s
    }
}

/// The next newline in `[pos, end)`, or `end`.
pub open spec fn line_break(b: Seq<u8>, pos: int, end: int) -> int {
    match text::find_first(b, pos, end, 10u8) {
        Some(i) => i,
        None => end,
    }
}

pub proof fn lemma_line_break(b: Seq<u8>, pos: int, end: int)
    requires
        0 <= pos <= end <= b.len(),
    ensures
        pos <= line_break(b, pos, end) <= end,
{
    text::lemma_find_first(b, pos, end, 10u8);
}

/// The words of `b[pos..end]`, as byte ranges; `block` tells whether `pos` lies in
/// a block of code.
pub open spec fn words_in(b: Seq<u8>, pos: int, end: int, block: bool) -> Seq<(int, int)>
    decreases end + 1 - pos,
{
    if pos < 0 || pos >= end || end > b.len() {
        Seq::empty()
    } else {
        proof {
            lemma_line_break(b, pos, end);
        }
        let stop = line_break(b, pos, end);
        let content = without_returns(decode_utf8(b.subrange(pos, stop)));
        if fence_text(content) {
            words_in(b, stop + 1, end, !block)
        } else if block || text::begins_with(content, "==="@) {
            words_in(b, stop + 1, end, block)
        } else {
            placed(content, pos, prose_words(content, 0, false)) + words_in(
                b,
                stop + 1,
                end,
                block,
            )
        }
    }
}

/// The words to be spell-checked in `[start, end)` of a file.
pub open spec fn words_to_check(b: Seq<u8>, start: int, end: int) -> Seq<(int, int)> {
    let e = if end < b.len() {
        end
    } else {
        b.len() as int
    };
    if start >= e {
        Seq::empty()
    } else {
        words_in(b, start, e, in_block(b, positions::line_at(b, start)))
    }
}

fn strip_returns(s: &str) -> (r: &str)
    ensures
        r@ == without_returns(s@),
        exists|t: Seq<char>| s@ == #[trigger] (r@ + t),
{
    let cs = text::chars_of(s);
    let mut n: usize = cs.len();
    proof {
        assert(s@.subrange(0, n as int) =~= s@);
    }
    while n > 0 && cs[n - 1] == '\r'
        invariant
            n <= cs.len(),
            cs@ == s@,
            without_returns(s@.subrange(0, n as int)) == without_returns(s@),
        decreases n,
    {
        proof {
            assert(s@.subrange(0, n as int).drop_last() =~= s@.subrange(0, n - 1));
        }
        n -= 1;
    }
    let r = s.substring_char(0, n);
    proof {
        assert(s@ =~= r@ + s@.subrange(n as int, s@.len() as int));
    }
    r
}

/// Whether `start` already sits inside a fenced code block.
fn block_before(source: &str, start: usize) -> (r: bool)
    requires
        start <= encode_utf8(source@).len(),
    ensures
        r == in_block(encode_utf8(source@), positions::line_at(encode_utf8(source@), start as int)),
{
    let b = source.as_bytes();
    let ghost starts = spans::line_starts(b@);
    let mut open = false;
    let mut line_start: usize = 0;
    let ghost mut l: int = 0;
    let mut i: usize = 0;
    proof {
        assert(b@.subrange(0, 0) =~= Seq::<u8>::empty());
        encode_utf8_valid_utf8(source@);
        spans::lemma_line_starts(b@);
    }
    while i < start
        invariant
            i <= start <= b@.len(),
            b@ == encode_utf8(source@),
            valid_utf8(b@),
            starts == spans::line_starts(b@),
            line_start <= i,
            0 <= l < starts.len(),
            l == positions::line_at(b@, i as int),
            line_start == starts[l],
            open == in_block(b@, l),
        decreases start - i,
    {
        proof {
            assert(b@.subrange(0, i + 1).drop_last() =~= b@.subrange(0, i as int));
            positions::lemma_line_at(b@, i + 1);
        }
        if b[i] == 10u8 {
            proof {
                spans::lemma_line_starts(b@.subrange(0, i as int));
                positions::lemma_prefix_line(b@, i + 1, l + 1);
                assert(spans::line_starts(b@.subrange(0, i + 1))[l + 1] == i + 1);
                spans::lemma_line_on_boundary(source@, l);
                text::lemma_after_ascii(b@, i as int);
            }
            let line = text::slice(source, line_start, i);
            proof {
                encode_utf8_decode_utf8(line@);
                assert(line@ == whole_line(b@, l));
            }
            if is_fence_text(line) {
                open = !open;
            }
            line_start = i + 1;
            proof {
                l = l + 1;
            }
        }
        i += 1;
    }
    open
}

/// Tokenize the byte range `[start, end)` of `source`, yielding words that
/// should be spell-checked. Skips:
///
/// - delimiter lines (`=== ...`)
/// - fenced code blocks (between ``` or ~~~ lines)
/// - inline code (`` `...` ``)
/// - URLs (anything starting with `http://`, `https://`, `ftp://`, `file://`)
/// - `#tags` (the leading `#` and the tag body)
/// - `TODO:` / `DONE:` keywords (the prefix only)
/// - tokens with non-letter characters mixed in (identifiers like `foo_bar`,
///   `path/to/x`, `kebab-case`)
/// - pure-digit tokens, dates (`YYYY-MM-DD`), times (`HH:MM`)
/// - tokens shorter than 2 characters
pub fn tokenize_for_spell(source: &str, start: usize, end: usize) -> (r: Vec<WordToken>)
    requires
        start < end && start < encode_utf8(source@).len() ==> text::on_boundary(
            encode_utf8(source@),
            start as int,
        ),
        start < end < encode_utf8(source@).len() ==> text::on_boundary(
            encode_utf8(source@),
            end as int,
        ),
    ensures
        token_spans(r@) == words_to_check(encode_utf8(source@), start as int, end as int),
        texts_match(encode_utf8(source@), r@),
{
    let mut out: Vec<WordToken> = Vec::new();
    let ghost b = encode_utf8(source@);
    let n = text::byte_len(source);
    let last = if end < n {
        end
    } else {
        n
    };
    proof {
        assert(token_spans(out@) =~= Seq::<(int, int)>::empty());
        encode_utf8_valid_utf8(source@);
    }
    if start >= last {
        return out;
    }
    let mut block = block_before(source, start);
    let ghost all = words_in(b, start as int, last as int, block);
    let mut pos: usize = start;
    proof {
        assert(token_spans(out@) + all =~= all);
    }
    while pos < last
        invariant
            start <= pos,
            pos <= last + 1,
            last <= n,
            n == b.len(),
            all == words_to_check(b, start as int, end as int),
            b == encode_utf8(source@),
            valid_utf8(b),
            text::on_boundary(b, last as int),
            pos <= last ==> text::on_boundary(b, pos as int),
            texts_match(b, out@),
            token_spans(out@) + words_in(b, pos as int, last as int, block) == all,
        decreases last + 1 - pos,
    {
        proof {
            lemma_line_break(b, pos as int, last as int);
        }
        let found = text::find_byte(source.as_bytes(), pos, last, 10u8);
        let stop = match found {
            Some(i) => i,
            None => last,
        };
        proof {
            if stop < last {
                text::lemma_after_ascii(b, stop as int);
            }
        }
        let raw = text::slice(source, pos, stop);
        let content = strip_returns(raw);
        proof {
            encode_utf8_decode_utf8(raw@);
            let t = choose|t: Seq<char>| raw@ == #[trigger] (content@ + t);
            lemma_front_of_piece(source@, pos as int, stop as int, content@, t);
        }
        let ghost before = token_spans(out@);
        let ghost rest = words_in(b, pos as int, last as int, block);
        if is_fence_text(content) {
            block = !block;
        } else if !block && !text::starts_with(content, "===") {
            tokenize_prose_line(source, pos, content, &mut out);
        }
        proof {
            assert(token_spans(out@) + words_in(b, stop + 1, last as int, block) =~= before + rest);
        }
        if stop == last {
            proof {
                assert(words_in(b, stop + 1, last as int, block) =~= Seq::<(int, int)>::empty());
                assert(token_spans(out@) =~= all);
            }
            return out;
        }
        pos = stop + 1;
    }
    proof {
        assert(words_in(b, pos as int, last as int, block) =~= Seq::<(int, int)>::empty());
        assert(token_spans(out@) =~= all);
    }
    out
}

/// The front of a piece of a text lies where the piece does.
proof fn lemma_front_of_piece(source: Seq<char>, pos: int, stop: int, front: Seq<char>, t: Seq<char>)
    requires
        0 <= pos <= stop <= encode_utf8(source).len(),
        text::on_boundary(encode_utf8(source), pos),
        text::on_boundary(encode_utf8(source), stop),
        encode_utf8(front + t) == encode_utf8(source).subrange(pos, stop),
    ensures
        text::occurs_at(encode_utf8(source), pos, encode_utf8(front)),
        text::on_boundary(encode_utf8(source), pos + encode_utf8(front).len()),
{
    let b = encode_utf8(source);
    let f = encode_utf8(front);
    text::lemma_encode_concat(front, t);
    let all = front + t;
    assert(all.subrange(0, front.len() as int) =~= front);
    text::lemma_offset_on_boundary(all, front.len() as int);
    text::lemma_boundary_piece(b, pos, stop, f.len() as int);
    assert(b.subrange(pos, pos + f.len()) =~= b.subrange(pos, stop).subrange(0, f.len() as int));
    assert(encode_utf8(all).subrange(0, f.len() as int) =~= f);
}

// ---------------------------------------------------------------------------
// Laws
// ---------------------------------------------------------------------------

/// A word added to the user dictionary is correct from then on, and so is every
/// word that was correct before.
pub proof fn law_added_word_is_correct(e: EngineView, added: Seq<char>, other: Seq<char>)
    ensures
        ({
            let f = EngineView { user: e.user.insert(words::lower(added)), ..e };
            &&& correct(f, added)
            &&& correct(e, other) ==> correct(f, other)
        }),
{
}

} // verus!
