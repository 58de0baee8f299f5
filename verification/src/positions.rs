//! Places in a text: the line of an offset, the character boundaries around it,
//! and what an edit leaves of the lines before it.

use vstd::prelude::*;
use vstd::utf8::*;

use crate::buffer::TextBuffer;
use crate::spans;
use crate::text;
use crate::wrap;

verus! {

// ---------------------------------------------------------------------------
// Character boundaries
// ---------------------------------------------------------------------------

/// The last character boundary before offset `i`.
pub open spec fn prev_bound(b: Seq<u8>, i: int) -> int
    decreases i,
{
    if i <= 1 {
        0
    } else if text::on_boundary(b, i - 1) {
        i - 1
    } else {
        prev_bound(b, i - 1)
    }
}

/// The first character boundary after offset `i`, at most the end.
pub open spec fn next_bound(b: Seq<u8>, i: int) -> int
    decreases b.len() - i,
{
    if i + 1 >= b.len() {
        b.len() as int
    } else if text::on_boundary(b, i + 1) {
        i + 1
    } else {
        next_bound(b, i + 1)
    }
}

pub proof fn lemma_prev_bound(s: Seq<char>, i: int)
    requires
        i > 0,
    ensures
        0 <= prev_bound(encode_utf8(s), i) < i,
        text::on_boundary(encode_utf8(s), prev_bound(encode_utf8(s), i)),
    decreases i,
{
    text::lemma_boundary_ends(s);
    if i > 1 && !text::on_boundary(encode_utf8(s), i - 1) {
        lemma_prev_bound(s, i - 1);
    }
}

pub proof fn lemma_next_bound(b: Seq<u8>, i: int)
    requires
        0 <= i < b.len(),
    ensures
        i < next_bound(b, i) <= b.len(),
        text::on_boundary(b, next_bound(b, i)),
    decreases b.len() - i,
{
    if i + 1 < b.len() && !text::on_boundary(b, i + 1) {
        lemma_next_bound(b, i + 1);
    }
}

/// The last character boundary of `s` before `byte`.
pub fn prev_char_boundary(s: &str, byte: usize) -> (r: usize)
    requires
        byte > 0,
    ensures
        r == prev_bound(encode_utf8(s@), byte as int),
        r < byte,
        text::on_boundary(encode_utf8(s@), r as int),
{
    let mut b: usize = byte - 1;
    proof {
        lemma_prev_bound(s@, byte as int);
    }
    while b > 0 && !text::at_boundary(s, b)
        invariant
            b < byte,
            prev_bound(encode_utf8(s@), b + 1) == prev_bound(encode_utf8(s@), byte as int),
        decreases b,
    {
        b -= 1;
    }
    b
}

/// The first character boundary of `s` after `byte`, at most its end.
pub fn next_char_boundary(s: &str, byte: usize) -> (r: usize)
    ensures
        r == next_bound(encode_utf8(s@), byte as int),
        byte < encode_utf8(s@).len() ==> byte < r && text::on_boundary(
            encode_utf8(s@),
            r as int,
        ),
        r <= encode_utf8(s@).len(),
{
    let n = text::byte_len(s);
    if byte >= n {
        return n;
    }
    let mut b: usize = byte + 1;
    proof {
        lemma_next_bound(encode_utf8(s@), byte as int);
    }
    while b < n && !text::at_boundary(s, b)
        invariant
            byte < b <= n,
            n == encode_utf8(s@).len(),
            next_bound(encode_utf8(s@), b - 1) == next_bound(encode_utf8(s@), byte as int),
        decreases n - b,
    {
        b += 1;
    }
    b
}

// ---------------------------------------------------------------------------
// Lines
// ---------------------------------------------------------------------------

/// The line on which offset `off` lies: as many as there are newlines before it.
pub open spec fn line_at(b: Seq<u8>, off: int) -> int {
    spans::line_starts(b.subrange(0, off)).len() - 1
}

/// The lines of two texts joined: the first line of the second continues the last
/// line of the first.
pub proof fn lemma_starts_concat(a: Seq<u8>, c: Seq<u8>)
    ensures
        spans::line_starts(a + c).len() == spans::line_starts(a).len() + spans::line_starts(c).len()
            - 1,
        forall|l: int|
            0 <= l < spans::line_starts(a).len() ==> #[trigger] spans::line_starts(a + c)[l]
                == spans::line_starts(a)[l],
        forall|l: int|
            spans::line_starts(a).len() <= l < spans::line_starts(a + c).len()
                ==> #[trigger] spans::line_starts(a + c)[l] == a.len() + spans::line_starts(c)[l
                - spans::line_starts(a).len() + 1],
    decreases c.len(),
{
    spans::lemma_line_starts(a);
    spans::lemma_line_starts(c);
    if c.len() == 0 {
        assert(a + c =~= a);
    } else {
        assert((a + c).drop_last() =~= a + c.drop_last());
        lemma_starts_concat(a, c.drop_last());
        spans::lemma_line_starts(c.drop_last());
    }
}

/// A line that starts at or before offset `p` is a line of the text before `p`.
pub proof fn lemma_prefix_line(b: Seq<u8>, p: int, l: int)
    requires
        0 <= p <= b.len(),
        0 <= l < spans::line_starts(b).len(),
        spans::line_starts(b)[l] <= p,
    ensures
        l < spans::line_starts(b.subrange(0, p)).len(),
        spans::line_starts(b.subrange(0, p))[l] == spans::line_starts(b)[l],
{
    let a = b.subrange(0, p);
    let c = b.subrange(p, b.len() as int);
    assert(b =~= a + c);
    lemma_starts_concat(a, c);
    spans::lemma_line_starts(c);
    if l >= spans::line_starts(a).len() {
        let k = l - spans::line_starts(a).len() + 1;
        assert(spans::line_starts(c)[0] < spans::line_starts(c)[k]);
    }
}

/// A text that begins like `b` up to `p` has the lines that start there.
pub proof fn lemma_edit_keeps_line(b: Seq<u8>, p: int, rest: Seq<u8>, l: int)
    requires
        0 <= p <= b.len(),
        0 <= l < spans::line_starts(b).len(),
        spans::line_starts(b)[l] <= p,
    ensures
        l < spans::line_starts(b.subrange(0, p) + rest).len(),
        spans::line_starts(b.subrange(0, p) + rest)[l] == spans::line_starts(b)[l],
        spans::line_starts(b.subrange(0, p) + rest).len() >= spans::line_starts(
            b.subrange(0, p),
        ).len() + spans::line_starts(rest).len() - 1,
{
    lemma_prefix_line(b, p, l);
    lemma_starts_concat(b.subrange(0, p), rest);
    spans::lemma_line_starts(rest);
}

/// The line of an offset exists, starts at or before it, and the next line starts
/// after it.
pub proof fn lemma_line_at(b: Seq<u8>, off: int)
    requires
        0 <= off <= b.len(),
    ensures
        0 <= line_at(b, off) < spans::line_starts(b).len(),
        0 <= spans::line_starts(b)[line_at(b, off)] <= off,
        line_at(b, off) + 1 < spans::line_starts(b).len() ==> off < spans::line_starts(b)[line_at(
            b,
            off,
        ) + 1],
        off <= spans::line_stop(spans::line_starts(b), b.len() as int, line_at(b, off)),
{
    let a = b.subrange(0, off);
    let c = b.subrange(off, b.len() as int);
    assert(b =~= a + c);
    lemma_starts_concat(a, c);
    spans::lemma_line_starts(a);
    spans::lemma_line_starts(c);
    let l = line_at(b, off);
    if l + 1 < spans::line_starts(b).len() {
        assert(spans::line_starts(b)[l + 1] == a.len() + spans::line_starts(c)[1]);
        assert(spans::line_starts(c)[0] < spans::line_starts(c)[1]);
    }
}

/// The only line that holds an offset is the one it lies on.
pub proof fn lemma_line_at_unique(b: Seq<u8>, off: int, l: int)
    requires
        0 <= off <= b.len(),
        0 <= l < spans::line_starts(b).len(),
        spans::line_starts(b)[l] <= off,
        l + 1 < spans::line_starts(b).len() ==> off < spans::line_starts(b)[l + 1],
    ensures
        l == line_at(b, off),
{
    lemma_line_at(b, off);
    spans::lemma_line_starts(b);
    let m = line_at(b, off);
    let s = spans::line_starts(b);
    if l < m {
        assert(s[l + 1] <= s[m]);
    } else if m < l {
        assert(s[m + 1] <= s[l]);
    }
}

/// Line and byte of an offset.
pub fn locate(buffer: &TextBuffer, off: usize) -> (r: (usize, usize))
    requires
        buffer.wf(),
        off <= buffer.bytes().len(),
    ensures
        r.0 == line_at(buffer.bytes(), off as int),
        r.1 == off - buffer.line_from(r.0 as int),
        r.0 < buffer.lines(),
{
    let li = buffer.line_index();
    let (line, byte) = li.offset_to_line_col(off);
    proof {
        lemma_line_at_unique(buffer.bytes(), off as int, line as int);
    }
    (line, byte)
}

/// The first byte of a line that exists.
pub fn start_of_line(buffer: &TextBuffer, line: usize) -> (r: usize)
    requires
        buffer.wf(),
        line < buffer.lines(),
    ensures
        r == buffer.line_from(line as int),
        r <= buffer.bytes().len(),
{
    proof {
        spans::lemma_line_starts(buffer.bytes());
    }
    match buffer.line_index().line_start(line) {
        Some(s) => s,
        None => 0,
    }
}

/// The text of a line that exists, its newline included.
pub fn text_of_line(buffer: &TextBuffer, line: usize) -> (r: &str)
    requires
        buffer.wf(),
        line < buffer.lines(),
    ensures
        encode_utf8(r@) == wrap::line_of(buffer.bytes(), line as int),
        r@ == decode_utf8(wrap::line_of(buffer.bytes(), line as int)),
{
    match buffer.line_text(line) {
        Some(t) => {
            proof {
                encode_utf8_decode_utf8(t@);
            }
            t
        },
        None => "",
    }
}

/// The text of a line that exists, without its newline.
pub fn content_of_line(buffer: &TextBuffer, line: usize) -> (r: &str)
    requires
        buffer.wf(),
        line < buffer.lines(),
    ensures
        encode_utf8(r@) == wrap::content_bytes(wrap::line_of(buffer.bytes(), line as int)),
        r@ == wrap::line_chars(buffer.bytes(), line as int),
{
    let content = wrap::line_content(text_of_line(buffer, line));
    proof {
        encode_utf8_decode_utf8(content@);
    }
    content
}

// ---------------------------------------------------------------------------
// Places
// ---------------------------------------------------------------------------

/// Byte `byte` from the start of line `line` lies between two characters.
pub open spec fn place_ok(b: Seq<u8>, line: int, byte: int) -> bool {
    &&& 0 <= line < spans::line_starts(b).len()
    &&& 0 <= byte
    &&& text::on_boundary(b, spans::line_starts(b)[line] + byte)
}

/// Length of line `l` without its newline.
pub open spec fn line_len(b: Seq<u8>, l: int) -> int {
    text::content_len(wrap::line_of(b, l))
}

/// The place nearest to `byte` of line `line` that exists: at most the last line,
/// at most the end of its text, and not inside a character.
pub open spec fn nearest_place(b: Seq<u8>, line: int, byte: int) -> (int, int) {
    let n = spans::line_starts(b).len() as int;
    let l = if line < n {
        line
    } else {
        n - 1
    };
    let w = line_len(b, l);
    let p = if byte < w {
        byte
    } else {
        w
    };
    (
        l,
        if text::on_boundary(wrap::line_of(b, l), p) {
            p
        } else {
            prev_bound(wrap::line_of(b, l), p)
        },
    )
}

/// A boundary of a line is a boundary of the file, and the other way round.
pub proof fn lemma_line_boundary(b: Seq<u8>, l: int, i: int)
    requires
        valid_utf8(b),
        0 <= l < spans::line_starts(b).len(),
        0 <= i <= wrap::line_of(b, l).len(),
    ensures
        text::on_boundary(b, spans::line_starts(b)[l] + i) <==> text::on_boundary(
            wrap::line_of(b, l),
            i,
        ),
        spans::line_starts(b)[l] + wrap::line_of(b, l).len() <= b.len(),
{
    spans::lemma_line_starts(b);
    wrap::lemma_line_valid(b, l);
    decode_utf8_encode_utf8(b);
    spans::lemma_line_on_boundary(decode_utf8(b), l);
    let from = spans::line_starts(b)[l];
    let to = spans::line_stop(spans::line_starts(b), b.len() as int, l);
    text::lemma_boundary_piece(b, from, to, i);
}

/// The end of a line's text is a place.
pub proof fn lemma_line_end_ok(b: Seq<u8>, l: int)
    requires
        valid_utf8(b),
        0 <= l < spans::line_starts(b).len(),
    ensures
        place_ok(b, l, line_len(b, l)),
        place_ok(b, l, 0),
        0 <= line_len(b, l) <= wrap::line_of(b, l).len(),
{
    wrap::lemma_line_valid(b, l);
    let line = wrap::line_of(b, l);
    text::lemma_content_len(line);
    text::lemma_boundary_ends(decode_utf8(line));
    let n = line_len(b, l);
    if n < line.len() {
        assert(text::is_newline(line[n]));
    }
    lemma_line_boundary(b, l, n);
    lemma_line_boundary(b, l, 0);
}

/// The nearest place is a place, and a place within its line's text is its own
/// nearest place.
pub proof fn lemma_nearest_place(b: Seq<u8>, line: int, byte: int)
    requires
        valid_utf8(b),
        0 <= line,
        0 <= byte,
    ensures
        place_ok(b, nearest_place(b, line, byte).0, nearest_place(b, line, byte).1),
        place_ok(b, line, byte) && byte <= line_len(b, line) ==> nearest_place(b, line, byte) == (
            line,
            byte,
        ),
{
    spans::lemma_line_starts(b);
    let n = spans::line_starts(b).len() as int;
    let l = if line < n {
        line
    } else {
        n - 1
    };
    lemma_line_end_ok(b, l);
    wrap::lemma_line_valid(b, l);
    let w = line_len(b, l);
    let p = if byte < w {
        byte
    } else {
        w
    };
    lemma_line_boundary(b, l, p);
    if !text::on_boundary(wrap::line_of(b, l), p) {
        text::lemma_boundary_ends(decode_utf8(wrap::line_of(b, l)));
        lemma_prev_bound(decode_utf8(wrap::line_of(b, l)), p);
        lemma_line_boundary(b, l, prev_bound(wrap::line_of(b, l), p));
    }
}

/// A place of a text, or the nearest one where it does not exist.
pub open spec fn kept_place(b: Seq<u8>, line: int, byte: int) -> (int, int) {
    if place_ok(b, line, byte) {
        (line, byte)
    } else {
        nearest_place(b, line, byte)
    }
}

pub fn keep_place(buffer: &TextBuffer, line: usize, byte: usize) -> (r: (usize, usize))
    requires
        buffer.wf(),
    ensures
        (r.0 as int, r.1 as int) == kept_place(buffer.bytes(), line as int, byte as int),
        place_ok(buffer.bytes(), r.0 as int, r.1 as int),
{
    let n = buffer.len();
    let ok = if line < buffer.line_count() {
        let start = start_of_line(buffer, line);
        byte <= n - start && text::at_boundary(buffer.as_str(), start + byte)
    } else {
        false
    };
    if ok {
        (line, byte)
    } else {
        clamp_place(buffer, line, byte)
    }
}

pub fn clamp_place(buffer: &TextBuffer, line: usize, byte: usize) -> (r: (usize, usize))
    requires
        buffer.wf(),
    ensures
        (r.0 as int, r.1 as int) == nearest_place(buffer.bytes(), line as int, byte as int),
        place_ok(buffer.bytes(), r.0 as int, r.1 as int),
{
    proof {
        encode_utf8_valid_utf8(buffer@);
        lemma_nearest_place(buffer.bytes(), line as int, byte as int);
    }
    let n = buffer.line_count();
    let l = if line < n {
        line
    } else {
        n - 1
    };
    let t = text_of_line(buffer, l);
    let w = wrap::line_content_len(t);
    proof {
        text::lemma_boundary_ends(t@);
    }
    let p = if byte < w {
        byte
    } else {
        w
    };
    if p == 0 || text::at_boundary(t, p) {
        (l, p)
    } else {
        (l, prev_char_boundary(t, p))
    }
}

} // verus!
