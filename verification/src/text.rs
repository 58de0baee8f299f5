//! Text as bytes and as characters.
//!
//! A string is modelled twice: by its characters (`s@`) and by its UTF-8
//! bytes (`encode_utf8(s@)`). Offsets into a file are byte offsets; this module
//! relates the two views and holds the small string routines that the rest of
//! the library is built on.

use vstd::prelude::*;
use vstd::utf8::*;

verus! {

/// `i` is the first byte of a character of `b`, or the end of `b`.
pub open spec fn on_boundary(b: Seq<u8>, i: int) -> bool {
    i == b.len() || (0 <= i < b.len() && !is_continuation_byte(b[i]))
}

/// Byte offset of the `i`-th character of `s`.
pub open spec fn byte_offset(s: Seq<char>, i: int) -> int {
    encode_utf8(s.subrange(0, i)).len() as int
}

/// `pat` occurs in `b` at offset `i`.
pub open spec fn occurs_at<T>(b: Seq<T>, i: int, pat: Seq<T>) -> bool {
    0 <= i && i + pat.len() <= b.len() && b.subrange(i, i + pat.len()) == pat
}

/// `pat` occurs somewhere in `b`.
pub open spec fn contains_seq<T>(b: Seq<T>, pat: Seq<T>) -> bool {
    exists|i: int| #[trigger] occurs_at(b, i, pat)
}

/// `b` begins with `pat`.
pub open spec fn begins_with<T>(b: Seq<T>, pat: Seq<T>) -> bool {
    occurs_at(b, 0, pat)
}

// ---------------------------------------------------------------------------
// UTF-8 facts
// ---------------------------------------------------------------------------

/// On the bytes of a string, the pointwise notion of a boundary is the one of
/// `str::is_char_boundary`.
pub proof fn lemma_boundary(s: Seq<char>, i: int)
    ensures
        on_boundary(encode_utf8(s), i) <==> is_char_boundary(encode_utf8(s), i),
{
    let b = encode_utf8(s);
    encode_utf8_valid_utf8(s);
    is_char_boundary_start_end_of_seq(b);
    if 0 <= i < b.len() {
        is_char_boundary_iff_not_is_continuation_byte(b, i);
    } else if i < 0 || i > b.len() {
        reveal_with_fuel(is_char_boundary, 2);
    }
}

pub proof fn lemma_boundary_ends(s: Seq<char>)
    ensures
        on_boundary(encode_utf8(s), 0),
        on_boundary(encode_utf8(s), encode_utf8(s).len() as int),
{
    encode_utf8_valid_utf8(s);
    is_char_boundary_start_end_of_seq(encode_utf8(s));
    lemma_boundary(s, 0);
}

/// A boundary of a piece of `b` that starts and ends on boundaries is one of `b`.
pub proof fn lemma_boundary_piece(b: Seq<u8>, start: int, end: int, i: int)
    requires
        0 <= start <= end <= b.len(),
        on_boundary(b, start),
        on_boundary(b, end),
        0 <= i <= end - start,
    ensures
        on_boundary(b.subrange(start, end), i) <==> on_boundary(b, start + i),
{
}

/// The byte after a one-byte character starts a character.
pub proof fn lemma_after_ascii(b: Seq<u8>, i: int)
    requires
        valid_utf8(b),
        0 <= i < b.len(),
        b[i] < 0x80,
    ensures
        on_boundary(b, i),
        on_boundary(b, i + 1),
    decreases b.len(),
{
    let n = length_of_first_scalar(b);
    let rest = pop_first_scalar(b);
    if i == 0 {
        if rest.len() > 0 {
            assert(rest[0] == b[1]);
            assert(valid_utf8(rest));
            assert(valid_first_scalar(rest));
        }
    } else {
        assert(i >= n);
        lemma_after_ascii(rest, i - n);
        if i - n + 1 < rest.len() {
            assert(rest[i - n + 1] == b[i + 1]);
        }
    }
}

/// Encoding distributes over concatenation.
pub proof fn lemma_encode_concat(a: Seq<char>, b: Seq<char>)
    ensures
        encode_utf8(a + b) == encode_utf8(a) + encode_utf8(b),
    decreases a.len(),
{
    if a.len() == 0 {
        assert(a + b =~= b);
        assert(encode_utf8(a) + encode_utf8(b) =~= encode_utf8(b));
    } else {
        assert((a + b).drop_first() =~= a.drop_first() + b);
        lemma_encode_concat(a.drop_first(), b);
        assert(encode_utf8(a + b) =~= encode_utf8(a) + encode_utf8(b));
    }
}

/// Two strings with the same bytes have the same characters.
pub proof fn lemma_encode_injective(a: Seq<char>, b: Seq<char>)
    requires
        encode_utf8(a) == encode_utf8(b),
    ensures
        a == b,
{
    encode_utf8_decode_utf8(a);
    encode_utf8_decode_utf8(b);
}

pub proof fn lemma_encode_one(c: char)
    ensures
        encode_utf8(seq![c]) == encode_scalar(c as u32),
        1 <= encode_scalar(c as u32).len() <= 4,
{
    reveal_with_fuel(encode_utf8, 2);
    assert(seq![c].drop_first() =~= Seq::<char>::empty());
    assert(encode_utf8(seq![c]) =~= encode_scalar(c as u32));
}

/// Character offsets grow by the encoded length of the character passed.
pub proof fn lemma_byte_offset_step(s: Seq<char>, i: int)
    requires
        0 <= i < s.len(),
    ensures
        byte_offset(s, i + 1) == byte_offset(s, i) + encode_scalar(s[i] as u32).len(),
        byte_offset(s, i) < byte_offset(s, i + 1),
{
    assert(s.subrange(0, i + 1) =~= s.subrange(0, i) + seq![s[i]]);
    lemma_encode_concat(s.subrange(0, i), seq![s[i]]);
    lemma_encode_one(s[i]);
}

pub proof fn lemma_byte_offset_ends(s: Seq<char>)
    ensures
        byte_offset(s, 0) == 0,
        byte_offset(s, s.len() as int) == encode_utf8(s).len(),
{
    assert(s.subrange(0, s.len() as int) =~= s);
    assert(s.subrange(0, 0) =~= Seq::<char>::empty());
}

pub proof fn lemma_byte_offset_monotone(s: Seq<char>, i: int, j: int)
    requires
        0 <= i <= j <= s.len(),
    ensures
        byte_offset(s, i) + (j - i) <= byte_offset(s, j),
        byte_offset(s, j) <= encode_utf8(s).len(),
        byte_offset(s, i) >= i,
{
    lemma_byte_offset_gap(s, i, j);
    lemma_byte_offset_ends(s);
    lemma_byte_offset_gap(s, 0, i);
    lemma_byte_offset_gap(s, j, s.len() as int);
}

proof fn lemma_byte_offset_gap(s: Seq<char>, i: int, j: int)
    requires
        0 <= i <= j <= s.len(),
    ensures
        byte_offset(s, i) + (j - i) <= byte_offset(s, j),
    decreases j - i,
{
    if i < j {
        lemma_byte_offset_step(s, i);
        lemma_byte_offset_gap(s, i + 1, j);
    }
}

/// The bytes between two character offsets are the encoding of the characters
/// between them.
pub proof fn lemma_byte_subrange(s: Seq<char>, i: int, j: int)
    requires
        0 <= i <= j <= s.len(),
    ensures
        0 <= byte_offset(s, i) <= byte_offset(s, j) <= encode_utf8(s).len(),
        encode_utf8(s).subrange(byte_offset(s, i), byte_offset(s, j)) == encode_utf8(
            s.subrange(i, j),
        ),
{
    let a = s.subrange(0, i);
    let m = s.subrange(i, j);
    let z = s.subrange(j, s.len() as int);
    assert(s.subrange(0, j) =~= a + m);
    assert(s =~= a + m + z);
    lemma_encode_concat(a, m);
    lemma_encode_concat(a + m, z);
    assert(encode_utf8(s).subrange(byte_offset(s, i), byte_offset(s, j)) =~= encode_utf8(m));
}

/// Every character starts on a boundary.
pub proof fn lemma_offset_on_boundary(s: Seq<char>, k: int)
    requires
        0 <= k <= s.len(),
    ensures
        on_boundary(encode_utf8(s), byte_offset(s, k)),
{
    let front = s.subrange(0, k);
    let back = s.subrange(k, s.len() as int);
    assert(s =~= front + back);
    lemma_encode_concat(front, back);
    let b = encode_utf8(s);
    let o = byte_offset(s, k);
    lemma_boundary_ends(back);
    if o < b.len() {
        assert(b[o] == encode_utf8(back)[0]);
    }
}

/// Length of a character in UTF-8.
pub fn utf8_len(c: char) -> (r: usize)
    ensures
        r == encode_scalar(c as u32).len(),
        1 <= r <= 4,
{
    proof {
        char_is_scalar(c);
    }
    let x = c as u32;
    if x < 0x80 {
        1
    } else if x < 0x800 {
        2
    } else if x < 0x10000 {
        3
    } else {
        4
    }
}

// ---------------------------------------------------------------------------
// Scanning bytes
// ---------------------------------------------------------------------------

/// The first offset at or after `pos` that holds no space.
pub open spec fn skip_spaces(b: Seq<u8>, pos: int) -> int
    decreases b.len() - pos,
{
    if 0 <= pos < b.len() && b[pos] == 32u8 {
        skip_spaces(b, pos + 1)
    } else {
        pos
    }
}

/// `end`, moved left over the spaces before it, down to `start`.
pub open spec fn trim_spaces(b: Seq<u8>, start: int, end: int) -> int
    decreases end - start,
{
    if start < end && b[end - 1] == 32u8 {
        trim_spaces(b, start, end - 1)
    } else {
        end
    }
}

pub open spec fn is_newline(x: u8) -> bool {
    x == 10u8 || x == 13u8
}

/// Length of `b` without the `\n` and `\r` at its end.
pub open spec fn content_len(b: Seq<u8>) -> int
    decreases b.len(),
{
    if b.len() > 0 && is_newline(b.last()) {
        content_len(b.drop_last())
    } else {
        b.len() as int
    }
}

/// The first offset in `[from, to)` that holds `x`.
pub open spec fn find_first(b: Seq<u8>, from: int, to: int, x: u8) -> Option<int>
    decreases to - from,
{
    if from >= to {
        None
    } else if b[from] == x {
        Some(from)
    } else {
        find_first(b, from + 1, to, x)
    }
}

pub proof fn lemma_skip_spaces(b: Seq<u8>, pos: int)
    requires
        0 <= pos <= b.len(),
    ensures
        pos <= skip_spaces(b, pos) <= b.len(),
        forall|k: int| pos <= k < skip_spaces(b, pos) ==> b[k] == 32u8,
        skip_spaces(b, pos) < b.len() ==> b[skip_spaces(b, pos)] != 32u8,
    decreases b.len() - pos,
{
    if pos < b.len() && b[pos] == 32u8 {
        lemma_skip_spaces(b, pos + 1);
    }
}

pub proof fn lemma_trim_spaces(b: Seq<u8>, start: int, end: int)
    requires
        start <= end,
    ensures
        start <= trim_spaces(b, start, end) <= end,
        forall|k: int| trim_spaces(b, start, end) <= k < end ==> b[k] == 32u8,
        trim_spaces(b, start, end) > start ==> b[trim_spaces(b, start, end) - 1] != 32u8,
    decreases end - start,
{
    if start < end && b[end - 1] == 32u8 {
        lemma_trim_spaces(b, start, end - 1);
    }
}

pub proof fn lemma_content_len(b: Seq<u8>)
    ensures
        0 <= content_len(b) <= b.len(),
        forall|k: int| content_len(b) <= k < b.len() ==> is_newline(b[k]),
        content_len(b) > 0 ==> !is_newline(b[content_len(b) - 1]),
    decreases b.len(),
{
    if b.len() > 0 && is_newline(b.last()) {
        lemma_content_len(b.drop_last());
        assert forall|k: int| content_len(b) <= k < b.len() implies is_newline(b[k]) by {
            if k < b.len() - 1 {
                assert(b.drop_last()[k] == b[k]);
            }
        }
    }
}

pub proof fn lemma_find_first(b: Seq<u8>, from: int, to: int, x: u8)
    requires
        0 <= from <= to <= b.len(),
    ensures
        match find_first(b, from, to, x) {
            Some(i) => from <= i < to && b[i] == x && forall|k: int| from <= k < i ==> b[k] != x,
            None => forall|k: int| from <= k < to ==> b[k] != x,
        },
    decreases to - from,
{
    if from < to && b[from] != x {
        lemma_find_first(b, from + 1, to, x);
    }
}

/// Moves past the spaces at `pos`.
pub fn skip_sp(b: &[u8], pos: usize) -> (r: usize)
    requires
        pos <= b.len(),
    ensures
        r == skip_spaces(b@, pos as int),
        pos <= r <= b.len(),
{
    let mut i: usize = pos;
    while i < b.len() && b[i] == 32u8
        invariant
            pos <= i <= b.len(),
            skip_spaces(b@, i as int) == skip_spaces(b@, pos as int),
        decreases b.len() - i,
    {
        i += 1;
    }
    i
}

/// Moves left over the spaces before `end`.
pub fn trim_trailing_spaces(b: &[u8], start: usize, end: usize) -> (r: usize)
    requires
        start <= end <= b.len(),
    ensures
        r == trim_spaces(b@, start as int, end as int),
        start <= r <= end,
{
    let mut e: usize = end;
    while e > start && b[e - 1] == 32u8
        invariant
            start <= e <= end <= b.len(),
            trim_spaces(b@, start as int, e as int) == trim_spaces(b@, start as int, end as int),
        decreases e - start,
    {
        e -= 1;
    }
    e
}

/// Length of `b` without the newline bytes at its end.
pub fn content_length(b: &[u8]) -> (r: usize)
    ensures
        r == content_len(b@),
        r <= b.len(),
{
    let mut e: usize = b.len();
    proof {
        assert(b@.subrange(0, e as int) =~= b@);
    }
    while e > 0 && (b[e - 1] == 10u8 || b[e - 1] == 13u8)
        invariant
            e <= b.len(),
            content_len(b@.subrange(0, e as int)) == content_len(b@),
        decreases e,
    {
        proof {
            assert(b@.subrange(0, e as int).drop_last() =~= b@.subrange(0, e - 1));
        }
        e -= 1;
    }
    e
}

// ---------------------------------------------------------------------------
// Reading strings
// ---------------------------------------------------------------------------

/// Length of `s` in bytes.
pub fn byte_len(s: &str) -> (n: usize)
    ensures
        n == encode_utf8(s@).len(),
{
    s.as_bytes().len()
}

/// `i` is a character boundary of `s`.
pub fn at_boundary(s: &str, i: usize) -> (r: bool)
    ensures
        r == on_boundary(encode_utf8(s@), i as int),
{
    proof {
        lemma_boundary(s@, i as int);
    }
    s.is_char_boundary(i)
}

/// The text of `s` between two character boundaries.
pub fn slice(s: &str, start: usize, end: usize) -> (r: &str)
    requires
        start <= end,
        on_boundary(encode_utf8(s@), start as int),
        on_boundary(encode_utf8(s@), end as int),
    ensures
        encode_utf8(r@) == encode_utf8(s@).subrange(start as int, end as int),
{
    let ghost b = encode_utf8(s@);
    proof {
        lemma_boundary(s@, end as int);
    }
    let (front, _back) = s.split_at(end);
    proof {
        let f = encode_utf8(front@);
        assert(on_boundary(f, start as int));
        lemma_boundary(front@, start as int);
    }
    let (_skip, mid) = front.split_at(start);
    proof {
        assert(encode_utf8(mid@) =~= b.subrange(start as int, end as int));
    }
    mid
}

/// Bytes between two boundaries are the bytes of the characters they hold.
pub proof fn lemma_piece_decodes(s: Seq<char>, p: int, q: int)
    requires
        0 <= p <= q <= encode_utf8(s).len(),
        on_boundary(encode_utf8(s), p),
        on_boundary(encode_utf8(s), q),
    ensures
        valid_utf8(encode_utf8(s).subrange(p, q)),
        encode_utf8(decode_utf8(encode_utf8(s).subrange(p, q))) == encode_utf8(s).subrange(p, q),
{
    let b = encode_utf8(s);
    encode_utf8_valid_utf8(s);
    lemma_boundary(s, q);
    valid_utf8_split(b, q);
    let front = b.subrange(0, q);
    let fs = decode_utf8(front);
    decode_utf8_encode_utf8(front);
    assert(on_boundary(front, p));
    lemma_boundary(fs, p);
    valid_utf8_split(front, p);
    assert(front.subrange(p, q) =~= b.subrange(p, q));
    decode_utf8_encode_utf8(b.subrange(p, q));
}

/// Two strings are the same text.
pub fn same(a: &str, b: &str) -> (r: bool)
    ensures
        r == (a@ == b@),
{
    let x = a.as_bytes();
    let y = b.as_bytes();
    if x.len() != y.len() {
        return false;
    }
    let mut i: usize = 0;
    while i < x.len()
        invariant
            i <= x.len(),
            x.len() == y.len(),
            x@ == encode_utf8(a@),
            y@ == encode_utf8(b@),
            forall|k: int| 0 <= k < i ==> x[k] == y[k],
        decreases x.len() - i,
    {
        if x[i] != y[i] {
            return false;
        }
        i += 1;
    }
    proof {
        assert(x@ =~= y@);
        lemma_encode_injective(a@, b@);
    }
    true
}

/// `pat` occurs in `b` at `at`.
pub fn bytes_at(b: &[u8], at: usize, pat: &[u8]) -> (r: bool)
    ensures
        r == occurs_at(b@, at as int, pat@),
{
    if at > b.len() || pat.len() > b.len() - at {
        return false;
    }
    let mut i: usize = 0;
    while i < pat.len()
        invariant
            i <= pat.len(),
            at + pat.len() <= b.len(),
            forall|k: int| 0 <= k < i ==> b[at + k] == pat[k],
        decreases pat.len() - i,
    {
        if b[at + i] != pat[i] {
            proof {
                assert(b@.subrange(at as int, at + pat.len())[i as int] != pat@[i as int]);
            }
            return false;
        }
        i += 1;
    }
    proof {
        assert(b@.subrange(at as int, at + pat.len()) =~= pat@);
    }
    true
}

/// `s` begins with `pat`.
pub fn starts_with(s: &str, pat: &str) -> (r: bool)
    ensures
        r == begins_with(encode_utf8(s@), encode_utf8(pat@)),
        r == begins_with(s@, pat@),
{
    proof {
        lemma_prefix_bytes(s@, pat@);
    }
    bytes_at(s.as_bytes(), 0, pat.as_bytes())
}

/// Beginning with a string is the same on characters and on bytes.
pub proof fn lemma_prefix_bytes(s: Seq<char>, p: Seq<char>)
    ensures
        begins_with(s, p) <==> begins_with(encode_utf8(s), encode_utf8(p)),
    decreases p.len(),
{
    if begins_with(s, p) {
        let rest = s.subrange(p.len() as int, s.len() as int);
        assert(s =~= p + rest);
        lemma_encode_concat(p, rest);
        assert(encode_utf8(s).subrange(0, encode_utf8(p).len() as int) =~= encode_utf8(p));
    }
    if begins_with(encode_utf8(s), encode_utf8(p)) {
        if p.len() > 0 {
            let bs = encode_utf8(s);
            let bp = encode_utf8(p);
            encode_utf8_first_scalar(p);
            assert(bp.len() > 0);
            assert(bs.len() > 0);
            assert(s.len() > 0) by {
                if s.len() == 0 {
                    assert(encode_utf8(s).len() == 0);
                }
            }
            encode_utf8_first_scalar(s);
            assert forall|k: int| 0 <= k < bp.len() implies bs[k] == bp[k] by {
                assert(bs.subrange(0, bp.len() as int)[k] == bp[k]);
            }
            assert(decode_first_scalar(bs) == decode_first_scalar(bp));
            char_u32_cast(s[0], decode_first_scalar(bs));
            char_u32_cast(p[0], decode_first_scalar(bp));
            assert(s[0] == p[0]);
            let n = encode_scalar(p[0] as u32).len() as int;
            let s1 = s.drop_first();
            let p1 = p.drop_first();
            assert(encode_utf8(s1) =~= bs.subrange(n, bs.len() as int));
            assert(encode_utf8(p1) =~= bp.subrange(n, bp.len() as int));
            assert(encode_utf8(s1).subrange(0, encode_utf8(p1).len() as int) =~= encode_utf8(p1));
            lemma_prefix_bytes(s1, p1);
            assert(begins_with(s1, p1));
            assert(s.subrange(0, p.len() as int) =~= p) by {
                assert forall|k: int| 0 <= k < p.len() implies s[k] == p[k] by {
                    if k > 0 {
                        assert(s1.subrange(0, p1.len() as int)[k - 1] == p1[k - 1]);
                    }
                }
            }
        } else {
            assert(s.subrange(0, 0) =~= p);
        }
    }
}

/// Offset of the first `byte` of `b` at or after `from` and before `to`.
pub fn find_byte(b: &[u8], from: usize, to: usize, byte: u8) -> (r: Option<usize>)
    requires
        from <= to <= b.len(),
    ensures
        match (r, find_first(b@, from as int, to as int, byte)) {
            (Some(i), Some(j)) => i == j && from <= i < to && b[i as int] == byte,
            (None, None) => true,
            _ => false,
        },
{
    let mut i: usize = from;
    while i < to
        invariant
            from <= i <= to <= b.len(),
            find_first(b@, i as int, to as int, byte) == find_first(
                b@,
                from as int,
                to as int,
                byte,
            ),
        decreases to - i,
    {
        if b[i] == byte {
            return Some(i);
        }
        i += 1;
    }
    None
}

/// The characters of `s`.
pub fn chars_of(s: &str) -> (r: Vec<char>)
    ensures
        r@ == s@,
{
    let mut out: Vec<char> = Vec::new();
    for c in it: s.chars()
        invariant
            out@ == it.seq().take(it.index() as int),
            it.seq() == s@,
    {
        proof {
            assert(it.seq().take(it.index() as int + 1) =~= it.seq().take(it.index() as int).push(c));
        }
        out.push(c);
    }
    proof {
        assert(s@.take(s@.len() as int) =~= s@);
    }
    out
}

// ---------------------------------------------------------------------------
// Building strings
// ---------------------------------------------------------------------------

/// Appends `s` to `out`.
pub fn push_str(out: &mut String, s: &str)
    ensures
        final(out)@ == old(out)@ + s@,
        encode_utf8(final(out)@) == encode_utf8(old(out)@) + encode_utf8(s@),
{
    proof {
        lemma_encode_concat(out@, s@);
    }
    out.append(s);
}

} // verus!
