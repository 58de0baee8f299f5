//! Words: white space, trimming, splitting, letter case and numbers.

use vstd::prelude::*;
use vstd::string::StrSliceExecFns;
use vstd::utf8::*;

use crate::text;

verus! {

// ---------------------------------------------------------------------------
// Characters
// ---------------------------------------------------------------------------

/// The Unicode `White_Space` characters.
pub open spec fn is_white(c: char) -> bool {
    let x = c as u32;
    ||| 0x09 <= x <= 0x0d
    ||| x == 0x20
    ||| x == 0x85
    ||| x == 0xa0
    ||| x == 0x1680
    ||| 0x2000 <= x <= 0x200a
    ||| x == 0x2028
    ||| x == 0x2029
    ||| x == 0x202f
    ||| x == 0x205f
    ||| x == 0x3000
}

pub fn is_whitespace(c: char) -> (r: bool)
    ensures
        r == is_white(c),
{
    let x = c as u32;
    (0x09 <= x && x <= 0x0d) || x == 0x20 || x == 0x85 || x == 0xa0 || x == 0x1680 || (0x2000 <= x
        && x <= 0x200a) || x == 0x2028 || x == 0x2029 || x == 0x202f || x == 0x205f || x == 0x3000
}

/// `c` with an ASCII capital made small.
pub open spec fn lower_char(c: char) -> char {
    if 'A' <= c <= 'Z' {
        ((c as u32 + 32) as u32) as char
    } else {
        c
    }
}

/// `x` with an ASCII capital made small.
pub open spec fn lower_byte(x: u8) -> u8 {
    if 65 <= x <= 90 {
        (x + 32) as u8
    } else {
        x
    }
}

pub open spec fn lower(s: Seq<char>) -> Seq<char> {
    s.map_values(|c: char| lower_char(c))
}

pub open spec fn lower_bytes(b: Seq<u8>) -> Seq<u8> {
    b.map_values(|x: u8| lower_byte(x))
}

pub fn to_lower_byte(x: u8) -> (r: u8)
    ensures
        r == lower_byte(x),
{
    if 65 <= x && x <= 90 {
        x + 32
    } else {
        x
    }
}

pub fn to_lower_char(c: char) -> (r: char)
    ensures
        r == lower_char(c),
{
    if 'A' <= c && c <= 'Z' {
        let x = c as u8 + 32;
        x as char
    } else {
        c
    }
}

/// Appends one character, by `String::push`, which is documented to do that.
#[verifier::external_body]
pub(crate) fn push_char(out: &mut String, c: char)
    ensures
        final(out)@ == old(out)@.push(c),
{
    out.push(c);
}

/// `s` with its ASCII capitals made small.
pub fn to_ascii_lowercase(s: &str) -> (r: String)
    ensures
        r@ == lower(s@),
        encode_utf8(r@) == lower_bytes(encode_utf8(s@)),
{
    let cs = text::chars_of(s);
    let mut out = String::new();
    let mut i: usize = 0;
    while i < cs.len()
        invariant
            i <= cs.len(),
            out@ == lower(cs@.subrange(0, i as int)),
        decreases cs.len() - i,
    {
        push_char(&mut out, to_lower_char(cs[i]));
        i += 1;
        proof {
            assert(out@ =~= lower(cs@.subrange(0, i as int)));
        }
    }
    proof {
        assert(cs@.subrange(0, i as int) =~= s@);
        lemma_lower_bytes(s@);
    }
    out
}

/// Making the characters small makes the bytes small.
pub proof fn lemma_lower_bytes(s: Seq<char>)
    ensures
        encode_utf8(lower(s)) == lower_bytes(encode_utf8(s)),
    decreases s.len(),
{
    if s.len() > 0 {
        let rest = s.drop_first();
        lemma_lower_bytes(rest);
        assert(lower(s).drop_first() =~= lower(rest));
        lemma_lower_scalar(s[0]);
        let e = encode_scalar(s[0] as u32);
        assert(lower_bytes(e + encode_utf8(rest)) =~= lower_bytes(e) + lower_bytes(
            encode_utf8(rest),
        ));
    } else {
        assert(lower(s) =~= Seq::<char>::empty());
        assert(lower_bytes(encode_utf8(s)) =~= Seq::<u8>::empty());
    }
}

proof fn lemma_lower_scalar(c: char)
    ensures
        encode_scalar(lower_char(c) as u32) == lower_bytes(encode_scalar(c as u32)),
{
    let x = c as u32;
    char_is_scalar(c);
    if x < 0x80 {
        assert(leading_byte_width_1(x) == (x as u8) && (x as u8) < 0x80) by (bit_vector)
            requires
                x < 0x80,
        ;
        let y = lower_char(c) as u32;
        assert(y < 0x80);
        assert(leading_byte_width_1(y) == y as u8) by (bit_vector)
            requires
                y < 0x80,
        ;
        assert(x as u8 == x);
        assert(y as u8 == y);
        assert(encode_scalar(y) =~= lower_bytes(encode_scalar(x)));
    } else {
        assert(leading_byte_width_2(x) >= 0x80 && leading_byte_width_3(x) >= 0x80
            && leading_byte_width_4(x) >= 0x80 && last_continuation_byte(x) >= 0x80
            && second_last_continuation_byte(x) >= 0x80 && third_last_continuation_byte(x) >= 0x80)
            by (bit_vector);
        assert(encode_scalar(x) =~= lower_bytes(encode_scalar(x)));
    }
}

// ---------------------------------------------------------------------------
// Trimming
// ---------------------------------------------------------------------------

/// `s` without the white space at its start.
pub open spec fn trim_start(s: Seq<char>) -> Seq<char>
    decreases s.len(),
{
    if s.len() > 0 && is_white(s[0]) {
        trim_start(s.drop_first())
    } else {
        s
    }
}

/// `s` without the white space at its end.
pub open spec fn trim_end(s: Seq<char>) -> Seq<char>
    decreases s.len(),
{
    if s.len() > 0 && is_white(s.last()) {
        trim_end(s.drop_last())
    } else {
        s
    }
}

/// `s` without the white space at its ends.
pub open spec fn trim(s: Seq<char>) -> Seq<char> {
    trim_end(trim_start(s))
}

pub fn trimmed_start(s: &str) -> (r: &str)
    ensures
        r@ == trim_start(s@),
{
    let cs = text::chars_of(s);
    let mut i: usize = 0;
    proof {
        assert(cs@.subrange(0, cs.len() as int) =~= cs@);
    }
    while i < cs.len() && is_whitespace(cs[i])
        invariant
            i <= cs.len(),
            trim_start(cs@.subrange(i as int, cs.len() as int)) == trim_start(cs@),
        decreases cs.len() - i,
    {
        proof {
            let t = cs@.subrange(i as int, cs.len() as int);
            assert(t.drop_first() =~= cs@.subrange(i + 1, cs.len() as int));
        }
        i += 1;
    }
    s.substring_char(i, cs.len())
}

pub fn trimmed_end(s: &str) -> (r: &str)
    ensures
        r@ == trim_end(s@),
{
    let cs = text::chars_of(s);
    let mut n: usize = cs.len();
    proof {
        assert(cs@.subrange(0, cs.len() as int) =~= cs@);
    }
    while n > 0 && is_whitespace(cs[n - 1])
        invariant
            n <= cs.len(),
            trim_end(cs@.subrange(0, n as int)) == trim_end(cs@),
        decreases n,
    {
        proof {
            let t = cs@.subrange(0, n as int);
            assert(t.drop_last() =~= cs@.subrange(0, n - 1));
        }
        n -= 1;
    }
    s.substring_char(0, n)
}

pub fn trimmed(s: &str) -> (r: &str)
    ensures
        r@ == trim(s@),
{
    trimmed_end(trimmed_start(s))
}

// ---------------------------------------------------------------------------
// Prefixes
// ---------------------------------------------------------------------------

/// What follows `pat` at the start of `s`.
pub fn strip_prefix<'a>(s: &'a str, pat: &str) -> (r: Option<&'a str>)
    ensures
        r is Some <==> text::begins_with(s@, pat@),
        r matches Some(t) ==> t@ == s@.subrange(pat@.len() as int, s@.len() as int) && s@ == pat@
            + t@,
{
    if text::starts_with(s, pat) {
        let n = text::byte_len(pat);
        proof {
            let rest = s@.subrange(pat@.len() as int, s@.len() as int);
            assert(s@ =~= pat@ + rest);
            text::lemma_encode_concat(pat@, rest);
            let b = encode_utf8(s@);
            if n < b.len() {
                assert(b[n as int] == encode_utf8(rest)[0]);
                text::lemma_boundary_ends(rest);
            }
            text::lemma_boundary_ends(s@);
        }
        let end = text::byte_len(s);
        let t = text::slice(s, n, end);
        proof {
            let rest = s@.subrange(pat@.len() as int, s@.len() as int);
            assert(encode_utf8(s@).subrange(n as int, end as int) =~= encode_utf8(rest));
            text::lemma_encode_injective(t@, rest);
        }
        Some(t)
    } else {
        None
    }
}

// ---------------------------------------------------------------------------
// Splitting
// ---------------------------------------------------------------------------

/// One past the word that starts at `i`.
pub open spec fn word_end(s: Seq<char>, i: int) -> int
    decreases s.len() - i,
{
    if 0 <= i < s.len() && !is_white(s[i]) {
        word_end(s, i + 1)
    } else {
        i
    }
}

pub proof fn lemma_word_end(s: Seq<char>, i: int)
    requires
        0 <= i <= s.len(),
    ensures
        i <= word_end(s, i) <= s.len(),
        forall|k: int| i <= k < word_end(s, i) ==> !is_white(s[k]),
        word_end(s, i) < s.len() ==> is_white(s[word_end(s, i)]),
    decreases s.len() - i,
{
    if i < s.len() && !is_white(s[i]) {
        lemma_word_end(s, i + 1);
    }
}

/// The runs of characters other than white space, at or after `i`.
pub open spec fn words_from(s: Seq<char>, i: int) -> Seq<Seq<char>>
    decreases s.len() - i,
{
    if i < 0 || i >= s.len() {
        Seq::empty()
    } else if is_white(s[i]) {
        words_from(s, i + 1)
    } else {
        proof {
            lemma_word_end(s, i + 1);
        }
        seq![s.subrange(i, word_end(s, i + 1))] + words_from(s, word_end(s, i + 1))
    }
}

/// The words of `s`.
pub open spec fn words(s: Seq<char>) -> Seq<Seq<char>> {
    words_from(s, 0)
}

/// The views of a list of strings.
pub open spec fn texts(v: Seq<String>) -> Seq<Seq<char>> {
    v.map_values(|s: String| s@)
}

pub fn split_whitespace(s: &str) -> (r: Vec<String>)
    ensures
        texts(r@) == words(s@),
{
    let cs = text::chars_of(s);
    let mut out: Vec<String> = Vec::new();
    let mut i: usize = 0;
    proof {
        assert(texts(out@) + words_from(cs@, 0) =~= words(s@));
    }
    while i < cs.len()
        invariant
            i <= cs.len(),
            cs@ == s@,
            texts(out@) + words_from(cs@, i as int) == words(s@),
        decreases cs.len() - i,
    {
        if is_whitespace(cs[i]) {
            i += 1;
            continue ;
        }
        let start = i;
        i += 1;
        while i < cs.len() && !is_whitespace(cs[i])
            invariant
                start < i <= cs.len(),
                word_end(cs@, i as int) == word_end(cs@, start + 1),
            decreases cs.len() - i,
        {
            i += 1;
        }
        let ghost before = texts(out@);
        let w = s.substring_char(start, i).to_owned();
        out.push(w);
        proof {
            assert(texts(out@) =~= before.push(w@));
            assert(texts(out@) + words_from(cs@, i as int) =~= before + (seq![w@] + words_from(
                cs@,
                i as int,
            )));
        }
    }
    proof {
        assert(texts(out@) =~= words(s@));
    }
    out
}

/// One past the piece that starts at `i` and ends before `sep`.
pub open spec fn piece_end(s: Seq<char>, i: int, sep: char) -> int
    decreases s.len() - i,
{
    if 0 <= i < s.len() && s[i] != sep {
        piece_end(s, i + 1, sep)
    } else {
        i
    }
}

pub proof fn lemma_piece_end(s: Seq<char>, i: int, sep: char)
    requires
        0 <= i <= s.len(),
    ensures
        i <= piece_end(s, i, sep) <= s.len(),
        forall|k: int| i <= k < piece_end(s, i, sep) ==> s[k] != sep,
        piece_end(s, i, sep) < s.len() ==> s[piece_end(s, i, sep)] == sep,
    decreases s.len() - i,
{
    if i < s.len() && s[i] != sep {
        lemma_piece_end(s, i + 1, sep);
    }
}

/// The pieces of `s` between the `sep`s at or after `i`; one more than there are
/// `sep`s.
pub open spec fn pieces_from(s: Seq<char>, i: int, sep: char) -> Seq<Seq<char>>
    decreases s.len() - i,
{
    if i < 0 || i > s.len() {
        Seq::empty()
    } else {
        let j = piece_end(s, i, sep);
        proof {
            lemma_piece_end(s, i, sep);
        }
        if j < s.len() {
            seq![s.subrange(i, j)] + pieces_from(s, j + 1, sep)
        } else {
            seq![s.subrange(i, j)]
        }
    }
}

pub open spec fn pieces(s: Seq<char>, sep: char) -> Seq<Seq<char>> {
    pieces_from(s, 0, sep)
}

pub fn split_on(s: &str, sep: char) -> (r: Vec<String>)
    ensures
        texts(r@) == pieces(s@, sep),
{
    let cs = text::chars_of(s);
    let mut out: Vec<String> = Vec::new();
    let mut i: usize = 0;
    proof {
        assert(texts(out@) + pieces_from(cs@, 0, sep) =~= pieces(s@, sep));
    }
    loop
        invariant
            i <= cs.len(),
            cs@ == s@,
            texts(out@) + pieces_from(cs@, i as int, sep) == pieces(s@, sep),
        decreases cs.len() - i,
    {
        let start = i;
        while i < cs.len() && cs[i] != sep
            invariant
                start <= i <= cs.len(),
                piece_end(cs@, i as int, sep) == piece_end(cs@, start as int, sep),
            decreases cs.len() - i,
        {
            i += 1;
        }
        let ghost before = texts(out@);
        let w = s.substring_char(start, i).to_owned();
        out.push(w);
        proof {
            assert(texts(out@) =~= before.push(w@));
        }
        if i >= cs.len() {
            proof {
                assert(texts(out@) =~= before + pieces_from(cs@, start as int, sep));
            }
            return out;
        }
        i += 1;
        proof {
            assert(texts(out@) + pieces_from(cs@, i as int, sep) =~= before + (seq![w@]
                + pieces_from(cs@, i as int, sep)));
        }
    }
}

// ---------------------------------------------------------------------------
// Substrings
// ---------------------------------------------------------------------------

/// `pat` occurs in `b`.
pub fn contains_bytes(b: &[u8], pat: &[u8]) -> (r: bool)
    ensures
        r == text::contains_seq(b@, pat@),
{
    let mut i: usize = 0;
    loop
        invariant
            i <= b.len(),
            forall|k: int| 0 <= k < i ==> !#[trigger] text::occurs_at(b@, k, pat@),
        decreases b.len() - i,
    {
        if text::bytes_at(b, i, pat) {
            return true;
        }
        if i >= b.len() {
            return false;
        }
        i += 1;
    }
}

pub fn contains(s: &str, pat: &str) -> (r: bool)
    ensures
        r == text::contains_seq(encode_utf8(s@), encode_utf8(pat@)),
{
    contains_bytes(s.as_bytes(), pat.as_bytes())
}

// ---------------------------------------------------------------------------
// Numbers
// ---------------------------------------------------------------------------

pub open spec fn digit_char(d: int) -> char {
    ((48 + d) as u32) as char
}

/// `n` in decimal digits.
pub open spec fn decimal(n: nat) -> Seq<char>
    decreases n,
{
    if n < 10 {
        seq![digit_char(n as int)]
    } else {
        decimal(n / 10).push(digit_char((n % 10) as int))
    }
}

pub fn push_decimal(out: &mut String, n: usize)
    ensures
        final(out)@ == old(out)@ + decimal(n as nat),
    decreases n,
{
    let ghost start = out@;
    if n >= 10 {
        push_decimal(out, n / 10);
    }
    let d = (n % 10) as u8 + 48;
    push_char(out, d as char);
    proof {
        assert(d as char == digit_char((n % 10) as int));
        if n < 10 {
            assert(out@ =~= start + decimal(n as nat));
        } else {
            assert(out@ =~= start + decimal(n as nat));
        }
    }
}

pub fn decimal_of(n: usize) -> (r: String)
    ensures
        r@ == decimal(n as nat),
{
    let mut out = String::new();
    push_decimal(&mut out, n);
    proof {
        assert(out@ =~= decimal(n as nat));
    }
    out
}

/// `n` spaces.
pub open spec fn spaces(n: int) -> Seq<char> {
    Seq::new(
        if n > 0 {
            n as nat
        } else {
            0
        },
        |i: int| ' ',
    )
}

pub fn push_spaces(out: &mut String, n: usize)
    ensures
        final(out)@ == old(out)@ + spaces(n as int),
{
    let ghost start = out@;
    let mut i: usize = 0;
    while i < n
        invariant
            i <= n,
            out@ == start + spaces(i as int),
        decreases n - i,
    {
        push_char(out, ' ');
        i += 1;
        proof {
            assert(out@ =~= start + spaces(i as int));
        }
    }
    proof {
        assert(n == 0 ==> out@ =~= start + spaces(0));
    }
}

/// `s`, with spaces in front up to a width of `w` characters.
pub open spec fn pad_left(s: Seq<char>, w: int) -> Seq<char> {
    spaces(w - s.len()) + s
}

/// `s`, with spaces behind it up to a width of `w` characters.
pub open spec fn pad_right(s: Seq<char>, w: int) -> Seq<char> {
    s + spaces(w - s.len())
}

pub fn padded_left(s: &str, w: usize) -> (r: String)
    ensures
        r@ == pad_left(s@, w as int),
{
    let n = s.unicode_len();
    let mut out = String::new();
    if n < w {
        push_spaces(&mut out, w - n);
    }
    out.append(s);
    proof {
        assert(out@ =~= pad_left(s@, w as int));
    }
    out
}

pub fn padded_right(s: &str, w: usize) -> (r: String)
    ensures
        r@ == pad_right(s@, w as int),
{
    let n = s.unicode_len();
    let mut out = String::new();
    out.append(s);
    if n < w {
        push_spaces(&mut out, w - n);
    }
    proof {
        assert(out@ =~= pad_right(s@, w as int));
    }
    out
}

/// There is always a first piece.
pub proof fn lemma_pieces_nonempty(s: Seq<char>, sep: char)
    ensures
        pieces(s, sep).len() >= 1,
{
}

/// `s` without its last character.
pub fn without_last(s: &str) -> (r: String)
    ensures
        r@ == if s@.len() > 0 {
            s@.drop_last()
        } else {
            s@
        },
{
    let n = s.unicode_len();
    if n == 0 {
        return s.to_owned();
    }
    let front = s.substring_char(0, n - 1);
    proof {
        assert(front@ =~= s@.drop_last());
    }
    front.to_owned()
}

} // verus!
