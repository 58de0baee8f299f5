//! Character classes and case mappings. What `std` says of characters beyond
//! ASCII is taken as it is; for ASCII it is spelled out.

use vstd::prelude::*;

use crate::words;

verus! {

/// `char::is_alphabetic` of a character.
pub uninterp spec fn std_alphabetic(c: char) -> bool;

/// `char::is_numeric` of a character.
pub uninterp spec fn std_numeric(c: char) -> bool;

/// `char::is_uppercase` of a character.
pub uninterp spec fn std_uppercase(c: char) -> bool;

/// The characters that `char::to_lowercase` yields.
pub uninterp spec fn std_lower_chars(c: char) -> Seq<char>;

/// The characters that `char::to_uppercase` yields.
pub uninterp spec fn std_upper_chars(c: char) -> Seq<char>;

/// `str::to_lowercase` of a text.
pub uninterp spec fn std_lower_text(s: Seq<char>) -> Seq<char>;

/// `str::to_uppercase` of a text.
pub uninterp spec fn std_upper_text(s: Seq<char>) -> Seq<char>;

pub open spec fn ascii(c: char) -> bool {
    (c as u32) < 0x80
}

pub open spec fn all_ascii(s: Seq<char>) -> bool {
    forall|i: int| 0 <= i < s.len() ==> ascii(#[trigger] s[i])
}

pub open spec fn ascii_upper(c: char) -> bool {
    'A' <= c <= 'Z'
}

pub open spec fn ascii_lower(c: char) -> bool {
    'a' <= c <= 'z'
}

pub open spec fn ascii_digit(c: char) -> bool {
    '0' <= c <= '9'
}

/// The upper case of an ASCII letter; other characters stay.
pub open spec fn upper_char(c: char) -> char {
    if ascii_lower(c) {
        ((c as u32) - 32) as char
    } else {
        c
    }
}

/// `char::is_alphabetic`: of ASCII, the letters.
#[verifier::external_body]
fn std_is_alphabetic(c: char) -> (r: bool)
    ensures
        r == std_alphabetic(c),
        ascii(c) ==> r == (ascii_lower(c) || ascii_upper(c)),
{
    c.is_alphabetic()
}

/// `char::is_numeric`: of ASCII, the digits.
#[verifier::external_body]
fn std_is_numeric(c: char) -> (r: bool)
    ensures
        r == std_numeric(c),
        ascii(c) ==> r == ascii_digit(c),
{
    c.is_numeric()
}

/// `char::is_uppercase`: of ASCII, the capital letters.
#[verifier::external_body]
fn std_is_uppercase(c: char) -> (r: bool)
    ensures
        r == std_uppercase(c),
        ascii(c) ==> r == ascii_upper(c),
{
    c.is_uppercase()
}

/// `char::to_lowercase`: one or more characters; for ASCII, the one lower-case
/// character.
#[verifier::external_body]
fn std_to_lowercase(c: char) -> (r: Vec<char>)
    ensures
        r@ == std_lower_chars(c),
        r.len() >= 1,
        ascii(c) ==> r@ == seq![words::lower_char(c)],
{
    c.to_lowercase().collect()
}

/// `char::to_uppercase`: one or more characters; for ASCII, the one upper-case
/// character.
#[verifier::external_body]
fn std_to_uppercase(c: char) -> (r: Vec<char>)
    ensures
        r@ == std_upper_chars(c),
        r.len() >= 1,
        ascii(c) ==> r@ == seq![upper_char(c)],
{
    c.to_uppercase().collect()
}

/// `str::to_lowercase`: for ASCII, the text in lower case.
#[verifier::external_body]
fn std_str_lowercase(s: &str) -> (r: String)
    ensures
        r@ == std_lower_text(s@),
        all_ascii(s@) ==> r@ == words::lower(s@),
{
    s.to_lowercase()
}

/// `str::to_uppercase`: for ASCII, the text in upper case.
#[verifier::external_body]
fn std_str_uppercase(s: &str) -> (r: String)
    ensures
        r@ == std_upper_text(s@),
        all_ascii(s@) ==> r@ == s@.map_values(|c: char| upper_char(c)),
{
    s.to_uppercase()
}

// ---------------------------------------------------------------------------
// Classes
// ---------------------------------------------------------------------------

/// A letter.
pub open spec fn letter(c: char) -> bool {
    if ascii(c) {
        ascii_lower(c) || ascii_upper(c)
    } else {
        std_alphabetic(c)
    }
}

/// A numeric character.
pub open spec fn number(c: char) -> bool {
    if ascii(c) {
        ascii_digit(c)
    } else {
        std_numeric(c)
    }
}

/// A capital letter.
pub open spec fn capital(c: char) -> bool {
    if ascii(c) {
        ascii_upper(c)
    } else {
        std_uppercase(c)
    }
}

/// A letter or a numeric character.
pub open spec fn letter_or_number(c: char) -> bool {
    letter(c) || number(c)
}

pub fn is_letter(c: char) -> (r: bool)
    ensures
        r == letter(c),
{
    std_is_alphabetic(c)
}

pub fn is_number(c: char) -> (r: bool)
    ensures
        r == number(c),
{
    std_is_numeric(c)
}

pub fn is_capital(c: char) -> (r: bool)
    ensures
        r == capital(c),
{
    std_is_uppercase(c)
}

// ---------------------------------------------------------------------------
// Case
// ---------------------------------------------------------------------------

/// A character with its case folded: the first character of its lower case.
pub open spec fn folded_char(c: char) -> char {
    if ascii(c) {
        words::lower_char(c)
    } else {
        std_lower_chars(c)[0]
    }
}

/// A text with the case of each character folded. The number of characters stays.
pub open spec fn folded(s: Seq<char>) -> Seq<char> {
    s.map_values(|c: char| folded_char(c))
}

/// The upper case of a character.
pub open spec fn upper_chars(c: char) -> Seq<char> {
    if ascii(c) {
        seq![upper_char(c)]
    } else {
        std_upper_chars(c)
    }
}

/// A text in lower case.
pub open spec fn lower_text(s: Seq<char>) -> Seq<char> {
    if all_ascii(s) {
        words::lower(s)
    } else {
        std_lower_text(s)
    }
}

/// A text in upper case.
pub open spec fn upper_text(s: Seq<char>) -> Seq<char> {
    if all_ascii(s) {
        s.map_values(|c: char| upper_char(c))
    } else {
        std_upper_text(s)
    }
}

pub fn fold_char(c: char) -> (r: char)
    ensures
        r == folded_char(c),
{
    let v = std_to_lowercase(c);
    v[0]
}

/// The characters of `cs`, case-folded.
pub fn fold(cs: &Vec<char>) -> (r: Vec<char>)
    ensures
        r@ == folded(cs@),
{
    let mut out: Vec<char> = Vec::new();
    let mut i: usize = 0;
    while i < cs.len()
        invariant
            i <= cs.len(),
            out@ == folded(cs@).subrange(0, i as int),
        decreases cs.len() - i,
    {
        out.push(fold_char(cs[i]));
        i += 1;
        proof {
            assert(out@ =~= folded(cs@).subrange(0, i as int));
        }
    }
    proof {
        assert(out@ =~= folded(cs@));
    }
    out
}

/// The upper case of a character.
pub fn uppercase_of(c: char) -> (r: Vec<char>)
    ensures
        r@ == upper_chars(c),
{
    std_to_uppercase(c)
}

pub fn to_lower_text(s: &str) -> (r: String)
    ensures
        r@ == lower_text(s@),
{
    std_str_lowercase(s)
}

pub fn to_upper_text(s: &str) -> (r: String)
    ensures
        r@ == upper_text(s@),
{
    std_str_uppercase(s)
}

} // verus!
