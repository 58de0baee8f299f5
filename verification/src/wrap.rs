//! Text in terminal cells: widths, visual columns and word wrap.

use unicode_width::{UnicodeWidthChar, UnicodeWidthStr};
use vstd::prelude::*;
use vstd::string::StrSliceExecFns;
use vstd::utf8::*;

use crate::spans;
use crate::text;

verus! {

// ---------------------------------------------------------------------------
// unicode-width
// ---------------------------------------------------------------------------

/// The width that `unicode-width` gives a character.
pub uninterp spec fn char_width(c: char) -> Option<usize>;

/// The width that `unicode-width` gives a string. It is not always the sum of
/// the widths of the characters: some sequences are drawn as one.
pub uninterp spec fn str_width(s: Seq<char>) -> usize;

/// `UnicodeWidthChar::width`: `None` for control characters, 1 for printable
/// ASCII, and for no character more than its length in UTF-8.
#[verifier::external_body]
fn width_of_char(c: char) -> (r: Option<usize>)
    ensures
        r == char_width(c),
        r matches Some(w) ==> w <= encode_scalar(c as u32).len(),
        ' ' <= c <= '~' ==> r == Some(1usize),
        is_control(c) ==> r is None,
{
    UnicodeWidthChar::width(c)
}

/// `UnicodeWidthStr::width`: a string of printable ASCII characters, horizontal
/// rules (U+2500) and ellipses (U+2026) has one column per character.
#[verifier::external_body]
fn width_of_str(s: &str) -> (r: usize)
    ensures
        r == str_width(s@),
        is_narrow(s@) ==> r == s@.len(),
{
    UnicodeWidthStr::width(s)
}

/// Only printable ASCII characters, horizontal rules and ellipses.
pub open spec fn is_narrow(s: Seq<char>) -> bool {
    forall|i: int| 0 <= i < s.len() ==> ' ' <= #[trigger] s[i] <= '~' || s[i] == '\u{2500}'
        || s[i] == '\u{2026}'
}

// ---------------------------------------------------------------------------
// Columns
// ---------------------------------------------------------------------------

/// A control character.
pub open spec fn is_control(c: char) -> bool {
    let x = c as u32;
    x <= 0x1f || 0x7f <= x <= 0x9f
}

/// Cells that a character takes: one for printable ASCII, none for a control
/// character, and what `unicode-width` says of the others.
pub open spec fn cells(c: char) -> int {
    if ' ' <= c <= '~' {
        1
    } else if is_control(c) {
        0
    } else {
        match char_width(c) {
            Some(w) => w as int,
            None => 0,
        }
    }
}

/// Cells that a string takes: one per character where all are narrow, and what
/// `unicode-width` says of other strings.
pub open spec fn text_width(s: Seq<char>) -> int {
    if is_narrow(s) {
        s.len() as int
    } else {
        str_width(s) as int
    }
}

/// Cells that a string takes.
pub fn display_width(s: &str) -> (r: usize)
    ensures
        r == text_width(s@),
{
    width_of_str(s)
}

/// Cells of the characters of `s`, one by one.
pub open spec fn total_cells(s: Seq<char>) -> int
    decreases s.len(),
{
    if s.len() == 0 {
        0
    } else {
        total_cells(s.drop_last()) + cells(s.last())
    }
}

pub fn cells_of(c: char) -> (r: usize)
    ensures
        r == cells(c),
        r <= encode_scalar(c as u32).len(),
{
    match width_of_char(c) {
        Some(w) => w,
        None => 0,
    }
}

/// The text of a line without the newline bytes at its end.
pub open spec fn content_bytes(b: Seq<u8>) -> Seq<u8> {
    b.subrange(0, text::content_len(b))
}

/// The text of a line without the newline at its end.
pub fn line_content(line: &str) -> (r: &str)
    ensures
        encode_utf8(r@) == content_bytes(encode_utf8(line@)),
{
    let b = line.as_bytes();
    let n = text::content_length(b);
    proof {
        text::lemma_content_len(b@);
        text::lemma_boundary_ends(line@);
        if n < b@.len() {
            assert(text::is_newline(b@[n as int]));
        }
    }
    text::slice(line, 0, n)
}

pub fn line_content_len(line: &str) -> (r: usize)
    ensures
        r == text::content_len(encode_utf8(line@)),
{
    text::content_length(line.as_bytes())
}

/// The bytes of line `l` of a file, its newline included.
pub open spec fn line_of(b: Seq<u8>, l: int) -> Seq<u8> {
    let starts = spans::line_starts(b);
    b.subrange(starts[l], spans::line_stop(starts, b.len() as int, l))
}

/// The characters of line `l` of a file, without its newline.
pub open spec fn line_chars(b: Seq<u8>, l: int) -> Seq<char> {
    decode_utf8(content_bytes(line_of(b, l)))
}

/// The text of a line of a file is text.
pub proof fn lemma_line_valid(b: Seq<u8>, l: int)
    requires
        valid_utf8(b),
        0 <= l < spans::line_starts(b).len(),
    ensures
        valid_utf8(line_of(b, l)),
        valid_utf8(content_bytes(line_of(b, l))),
        encode_utf8(decode_utf8(line_of(b, l))) == line_of(b, l),
        encode_utf8(line_chars(b, l)) == content_bytes(line_of(b, l)),
        0 <= text::content_len(line_of(b, l)) <= line_of(b, l).len(),
        spans::line_starts(b)[l] + line_of(b, l).len() == spans::line_stop(
            spans::line_starts(b),
            b.len() as int,
            l,
        ),
{
    let s = decode_utf8(b);
    decode_utf8_encode_utf8(b);
    spans::lemma_line_on_boundary(s, l);
    spans::lemma_line_starts(b);
    let from = spans::line_starts(b)[l];
    let to = spans::line_stop(spans::line_starts(b), b.len() as int, l);
    text::lemma_piece_decodes(s, from, to);
    let line = line_of(b, l);
    let t = decode_utf8(line);
    text::lemma_content_len(line);
    text::lemma_boundary_ends(t);
    let n = text::content_len(line);
    if n < line.len() {
        assert(text::is_newline(line[n]));
    }
    text::lemma_piece_decodes(t, 0, n);
}

/// The visual column of byte `byte` of a line; bytes past the end count as the
/// end.
pub open spec fn column_of(line: Seq<char>, byte: int) -> int {
    let b = encode_utf8(line);
    total_cells(
        decode_utf8(
            b.subrange(
                0,
                if byte < b.len() {
                    byte
                } else {
                    b.len() as int
                },
            ),
        ),
    )
}

pub fn visual_col_for_byte(line: &str, byte: usize) -> (r: usize)
    requires
        byte < encode_utf8(line@).len() ==> text::on_boundary(encode_utf8(line@), byte as int),
    ensures
        r == column_of(line@, byte as int),
{
    let n = text::byte_len(line);
    let end = if byte < n {
        byte
    } else {
        n
    };
    proof {
        text::lemma_boundary_ends(line@);
    }
    let front = text::slice(line, 0, end);
    let front_len = text::byte_len(front);
    let cs = text::chars_of(front);
    let mut sum: usize = 0;
    let mut i: usize = 0;
    proof {
        encode_utf8_decode_utf8(front@);
        text::lemma_byte_offset_ends(front@);
    }
    while i < cs.len()
        invariant
            i <= cs.len(),
            cs@ == front@,
            front_len == encode_utf8(front@).len(),
            sum == total_cells(cs@.subrange(0, i as int)),
            sum <= text::byte_offset(cs@, i as int),
        decreases cs.len() - i,
    {
        proof {
            assert(cs@.subrange(0, i + 1).drop_last() =~= cs@.subrange(0, i as int));
            text::lemma_byte_offset_step(cs@, i as int);
            text::lemma_byte_offset_monotone(cs@, i + 1, cs@.len() as int);
        }
        sum = sum + cells_of(cs[i]);
        i += 1;
    }
    proof {
        assert(cs@.subrange(0, i as int) =~= cs@);
    }
    sum
}

/// How far the characters of `s` from `i` on go until one no longer fits in
/// `room` cells.
pub open spec fn fitting(s: Seq<char>, i: int, room: int) -> int
    decreases s.len() - i,
{
    if 0 <= i < s.len() && cells(s[i]) <= room {
        fitting(s, i + 1, room - cells(s[i]))
    } else {
        i
    }
}

pub proof fn lemma_fitting(s: Seq<char>, i: int, room: int)
    requires
        0 <= i <= s.len(),
    ensures
        i <= fitting(s, i, room) <= s.len(),
    decreases s.len() - i,
{
    if i < s.len() && cells(s[i]) <= room {
        lemma_fitting(s, i + 1, room - cells(s[i]));
    }
}

/// Number of characters of `cs` that fit in `room` cells.
fn count_fitting(cs: &Vec<char>, room: usize) -> (r: usize)
    ensures
        r == fitting(cs@, 0, room as int),
        r <= cs.len(),
{
    let mut left: usize = room;
    let mut i: usize = 0;
    while i < cs.len()
        invariant
            i <= cs.len(),
            fitting(cs@, i as int, left as int) == fitting(cs@, 0, room as int),
        decreases cs.len() - i,
    {
        let w = cells_of(cs[i]);
        if w > left {
            return i;
        }
        left = left - w;
        i += 1;
    }
    i
}

/// The content of a line, as characters.
pub open spec fn content_chars(line: Seq<char>) -> Seq<char> {
    decode_utf8(content_bytes(encode_utf8(line)))
}

/// The byte of a line at which the visual column `col` lies, at most the end of
/// its content.
pub fn byte_for_visual_col(line: &str, col: usize) -> (r: usize)
    ensures
        r == text::byte_offset(
            content_chars(line@),
            fitting(content_chars(line@), 0, col as int),
        ),
        r <= text::content_len(encode_utf8(line@)),
        text::on_boundary(encode_utf8(line@), r as int),
{
    let content = line_content(line);
    let n = text::byte_len(content);
    let cs = text::chars_of(content);
    let k = count_fitting(&cs, col);
    proof {
        encode_utf8_decode_utf8(content@);
        text::lemma_byte_subrange(content@, 0, k as int);
        text::lemma_byte_offset_ends(content@);
        lemma_content_boundary(line@, k as int);
    }
    byte_at(content, k)
}

/// Byte offset of character `k` of `s`.
pub fn byte_at(s: &str, k: usize) -> (r: usize)
    requires
        k <= s@.len(),
    ensures
        r == text::byte_offset(s@, k as int),
        r <= encode_utf8(s@).len(),
{
    let front = s.substring_char(0, k);
    proof {
        text::lemma_byte_offset_monotone(s@, k as int, s@.len() as int);
    }
    text::byte_len(front)
}

/// The start of a character of the content is a boundary of the line.
proof fn lemma_content_boundary(line: Seq<char>, k: int)
    requires
        0 <= k <= content_chars(line).len(),
        encode_utf8(content_chars(line)) == content_bytes(encode_utf8(line)),
    ensures
        text::on_boundary(encode_utf8(line), text::byte_offset(content_chars(line), k)),
        text::byte_offset(content_chars(line), k) <= text::content_len(encode_utf8(line)),
{
    let b = encode_utf8(line);
    let c = content_chars(line);
    let o = text::byte_offset(c, k);
    text::lemma_content_len(b);
    text::lemma_byte_offset_monotone(c, k, c.len() as int);
    text::lemma_offset_on_boundary(c, k);
    if o < encode_utf8(c).len() {
        assert(encode_utf8(c)[o] == b[o]);
    } else if o < b.len() {
        assert(text::is_newline(b[o]));
    }
}

/// Truncate `s` so its display width does not exceed `max`.
pub fn truncate_to_width(s: &str, max: usize) -> (r: String)
    ensures
        r@ == s@.subrange(0, fitting(s@, 0, max as int)),
{
    let cs = text::chars_of(s);
    let k = count_fitting(&cs, max);
    s.substring_char(0, k).to_owned()
}

// ---------------------------------------------------------------------------
// Word wrap
// ---------------------------------------------------------------------------

pub open spec fn blank(c: char) -> bool {
    c == ' ' || c == '\t'
}

/// `end`, moved left over blanks, down to `start`.
pub open spec fn trim_blanks(s: Seq<char>, start: int, end: int) -> int
    decreases end - start,
{
    if start < end && blank(s[end - 1]) {
        trim_blanks(s, start, end - 1)
    } else {
        end
    }
}

/// `i`, moved right over blanks.
pub open spec fn pass_blanks(s: Seq<char>, i: int) -> int
    decreases s.len() - i,
{
    if 0 <= i < s.len() && blank(s[i]) {
        pass_blanks(s, i + 1)
    } else {
        i
    }
}

/// Where a row that starts at `start` is cut when character `i` overflows it:
/// after the last blank of the row, or at `i` if it has none.
pub open spec fn cut_at(start: int, last: Option<int>, i: int) -> int {
    match last {
        Some(x) => if x > start {
            x
        } else {
            i
        },
        None => i,
    }
}

/// The rows of `s`, in character offsets, from character `i` on: the current row
/// starts at `start`, its last blank ends at `last`, and it holds `used` cells.
pub open spec fn rows_from(
    s: Seq<char>,
    width: int,
    i: int,
    start: int,
    last: Option<int>,
    used: int,
) -> Seq<(int, int)>
    decreases s.len() - i,
{
    if i < 0 || i >= s.len() {
        seq![(start, s.len() as int)]
    } else {
        let c = s[i];
        if blank(c) {
            rows_from(s, width, i + 1, start, Some(i + 1), used + cells(c))
        } else if used + cells(c) > width {
            let cut = cut_at(start, last, i);
            let next = pass_blanks(s, cut);
            seq![(start, trim_blanks(s, start, cut))] + rows_from(
                s,
                width,
                i + 1,
                next,
                None,
                text_width(s.subrange(next, i)) + cells(c),
            )
        } else {
            rows_from(s, width, i + 1, start, last, used + cells(c))
        }
    }
}

/// The rows of `s` at the given width, in character offsets.
pub open spec fn rows(s: Seq<char>, width: int) -> Seq<(int, int)> {
    if width == 0 || s.len() == 0 || text_width(s) <= width {
        seq![(0, s.len() as int)]
    } else {
        rows_from(s, width, 0, 0, None, 0)
    }
}

/// No blank in `s[i..j]`.
pub open spec fn no_blank(s: Seq<char>, i: int, j: int) -> bool {
    forall|k: int| i <= k < j ==> !blank(#[trigger] s[k])
}

/// What holds of a row under construction: since its last blank, or since its
/// start, there is none.
pub open spec fn row_ok(s: Seq<char>, i: int, start: int, last: Option<int>) -> bool {
    &&& 0 <= start <= i <= s.len()
    &&& match last {
        Some(x) => start <= x <= i && no_blank(s, x, i),
        None => no_blank(s, start, i),
    }
}

pub proof fn lemma_trim_blanks(s: Seq<char>, start: int, end: int)
    requires
        start <= end,
    ensures
        start <= trim_blanks(s, start, end) <= end,
        forall|k: int| trim_blanks(s, start, end) <= k < end ==> blank(#[trigger] s[k]),
    decreases end - start,
{
    if start < end && blank(s[end - 1]) {
        lemma_trim_blanks(s, start, end - 1);
    }
}

/// Offsets of the characters of `s`, and of its end.
fn char_offsets(s: &str, cs: &Vec<char>) -> (r: Vec<usize>)
    requires
        cs@ == s@,
    ensures
        r@.len() == s@.len() + 1,
        forall|k: int| 0 <= k <= s@.len() ==> #[trigger] r@[k] == text::byte_offset(s@, k),
{
    let total = text::byte_len(s);
    let mut out: Vec<usize> = Vec::new();
    out.push(0);
    let mut i: usize = 0;
    proof {
        text::lemma_byte_offset_ends(s@);
    }
    while i < cs.len()
        invariant
            i <= cs.len(),
            cs@ == s@,
            total == encode_utf8(s@).len(),
            out@.len() == i + 1,
            forall|k: int| 0 <= k <= i ==> #[trigger] out@[k] == text::byte_offset(s@, k),
        decreases cs.len() - i,
    {
        proof {
            text::lemma_byte_offset_step(s@, i as int);
            text::lemma_byte_offset_monotone(s@, i + 1, s@.len() as int);
            assert(out@[i as int] == text::byte_offset(s@, i as int));
        }
        let w = text::utf8_len(cs[i]);
        let here = out[i];
        out.push(here + w);
        i += 1;
    }
    out
}

/// The rows of a line, in character offsets.
fn char_rows(content: &str, cs: &Vec<char>, width: usize) -> (r: Vec<(usize, usize)>)
    requires
        cs@ == content@,
        cs@.len() > 0,
    ensures
        r@.map_values(|p: (usize, usize)| (p.0 as int, p.1 as int)) == rows_from(
            content@,
            width as int,
            0,
            0,
            None,
            0,
        ),
        forall|k: int|
            0 <= k < r@.len() ==> (#[trigger] r@[k]).0 <= r@[k].1 && r@[k].1 <= content@.len(),
{
    let ghost s = content@;
    let ghost all = rows_from(s, width as int, 0, 0, None, 0);
    let mut segs: Vec<(usize, usize)> = Vec::new();
    let mut start: usize = 0;
    let mut last: Option<usize> = None;
    let mut used: u128 = 0;
    let mut i: usize = 0;
    proof {
        assert(segs@.map_values(|p: (usize, usize)| (p.0 as int, p.1 as int)) + all =~= all);
    }
    while i < cs.len()
        invariant
            cs@ == content@,
            s == content@,
            i <= cs.len(),
            row_ok(
                s,
                i as int,
                start as int,
                match last {
                    Some(x) => Some(x as int),
                    None => None,
                },
            ),
            used <= usize::MAX + 4 * i,
            segs@.map_values(|p: (usize, usize)| (p.0 as int, p.1 as int)) + rows_from(
                s,
                width as int,
                i as int,
                start as int,
                match last {
                    Some(x) => Some(x as int),
                    None => None,
                },
                used as int,
            ) == all,
            forall|k: int|
                0 <= k < segs@.len() ==> (#[trigger] segs@[k]).0 <= segs@[k].1 && segs@[k].1
                    <= s.len(),
        decreases cs.len() - i,
    {
        let c = cs[i];
        let cw = cells_of(c);
        proof {
            text::lemma_encode_one(c);
        }
        if c == ' ' || c == '\t' {
            last = Some(i + 1);
        } else if used + cw as u128 > width as u128 {
            let cut: usize = match last {
                Some(x) => if x > start {
                    x
                } else {
                    i
                },
                None => i,
            };
            let ghost before = segs@.map_values(|p: (usize, usize)| (p.0 as int, p.1 as int));
            let mut end: usize = cut;
            while end > start && (cs[end - 1] == ' ' || cs[end - 1] == '\t')
                invariant
                    start <= end <= cut <= cs.len(),
                    cs@ == s,
                    trim_blanks(s, start as int, end as int) == trim_blanks(
                        s,
                        start as int,
                        cut as int,
                    ),
                decreases end - start,
            {
                end -= 1;
            }
            segs.push((start, end));
            proof {
                assert(!blank(s[cut as int]));
                assert(pass_blanks(s, cut as int) == cut);
                let now = segs@.map_values(|p: (usize, usize)| (p.0 as int, p.1 as int));
                assert(now =~= before.push((start as int, end as int)));
                let rest = rows_from(
                    s,
                    width as int,
                    i + 1,
                    cut as int,
                    None,
                    text_width(s.subrange(cut as int, i as int)) + cells(c),
                );
                assert(now + rest =~= before + (seq![(start as int, end as int)] + rest));
            }
            start = cut;
            used = display_width(content.substring_char(cut, i)) as u128;
            last = None;
        }
        used = used + cw as u128;
        i += 1;
    }
    let ghost before = segs@.map_values(|p: (usize, usize)| (p.0 as int, p.1 as int));
    segs.push((start, cs.len()));
    proof {
        assert(segs@.map_values(|p: (usize, usize)| (p.0 as int, p.1 as int)) =~= before + seq![
            (start as int, s.len() as int),
        ]);
    }
    segs
}

/// Word-aware wrap. Returns a list of `(start_byte, end_byte)` ranges in
/// `content`, one per visual row. Breaks after the last space that still fits
/// within `width` cells; falls back to a hard break inside the word if no such
/// space exists. Leading spaces of continuation segments are dropped.
pub fn wrap_segments(content: &str, width: usize) -> (r: Vec<(usize, usize)>)
    ensures
        r@.len() == rows(content@, width as int).len(),
        forall|k: int|
            0 <= k < r@.len() ==> (#[trigger] r@[k]).0 == text::byte_offset(
                content@,
                rows(content@, width as int)[k].0,
            ) && r@[k].1 == text::byte_offset(content@, rows(content@, width as int)[k].1),
{
    let total = text::byte_len(content);
    proof {
        text::lemma_byte_offset_ends(content@);
    }
    if width == 0 || content.is_empty() || display_width(content) <= width {
        let mut one: Vec<(usize, usize)> = Vec::new();
        one.push((0, total));
        return one;
    }
    let cs = text::chars_of(content);
    let offs = char_offsets(content, &cs);
    let segs = char_rows(content, &cs, width);
    let ghost all = rows(content@, width as int);
    let mut out: Vec<(usize, usize)> = Vec::new();
    let mut k: usize = 0;
    proof {
        assert(segs@.len() == all.len());
    }
    while k < segs.len()
        invariant
            k <= segs.len(),
            out@.len() == k,
            offs@.len() == content@.len() + 1,
            forall|j: int|
                0 <= j <= content@.len() ==> #[trigger] offs@[j] == text::byte_offset(content@, j),
            forall|j: int|
                0 <= j < segs@.len() ==> (#[trigger] segs@[j]).0 <= segs@[j].1 && segs@[j].1
                    <= content@.len(),
            segs@.map_values(|p: (usize, usize)| (p.0 as int, p.1 as int)) == all,
            forall|j: int|
                0 <= j < k ==> (#[trigger] out@[j]).0 == text::byte_offset(content@, all[j].0)
                    && out@[j].1 == text::byte_offset(content@, all[j].1),
        decreases segs.len() - k,
    {
        let (a, z) = segs[k];
        proof {
            assert(all[k as int] == (segs@[k as int].0 as int, segs@[k as int].1 as int));
        }
        out.push((offs[a], offs[z]));
        k += 1;
    }
    out
}

/// Wrapping drops nothing but blanks: rows follow each other through the line
/// from its start to its end, and between one row and the next there are only
/// blanks.
pub proof fn law_wrap_keeps_text(s: Seq<char>, width: int)
    requires
        width >= 0,
    ensures
        ({
            let r = rows(s, width);
            &&& r.len() >= 1
            &&& r[0].0 == 0
            &&& r.last().1 == s.len()
            &&& forall|k: int|
                0 <= k < r.len() ==> 0 <= (#[trigger] r[k]).0 <= r[k].1 <= s.len()
            &&& forall|k: int|
                0 <= k < r.len() - 1 ==> (#[trigger] r[k]).1 <= r[k + 1].0 && forall|i: int|
                    r[k].1 <= i < r[k + 1].0 ==> blank(#[trigger] s[i])
        }),
{
    if !(width == 0 || s.len() == 0 || text_width(s) <= width) {
        lemma_rows_from(s, width, 0, 0, None, 0);
    }
}

proof fn lemma_rows_from(
    s: Seq<char>,
    width: int,
    i: int,
    start: int,
    last: Option<int>,
    used: int,
)
    requires
        row_ok(s, i, start, last),
    ensures
        ({
            let r = rows_from(s, width, i, start, last, used);
            &&& r.len() >= 1
            &&& r[0].0 == start
            &&& r.last().1 == s.len()
            &&& forall|k: int|
                0 <= k < r.len() ==> 0 <= (#[trigger] r[k]).0 <= r[k].1 <= s.len()
            &&& forall|k: int|
                0 <= k < r.len() - 1 ==> (#[trigger] r[k]).1 <= r[k + 1].0 && forall|j: int|
                    r[k].1 <= j < r[k + 1].0 ==> blank(#[trigger] s[j])
        }),
    decreases s.len() - i,
{
    let r = rows_from(s, width, i, start, last, used);
    if i < s.len() {
        let c = s[i];
        if blank(c) {
            lemma_rows_from(s, width, i + 1, start, Some(i + 1), used + cells(c));
        } else if used + cells(c) > width {
            let cut = cut_at(start, last, i);
            assert(!blank(s[cut]));
            assert(pass_blanks(s, cut) == cut);
            let end = trim_blanks(s, start, cut);
            lemma_trim_blanks(s, start, cut);
            let next_used = text_width(s.subrange(cut, i)) + cells(c);
            lemma_rows_from(s, width, i + 1, cut, None, next_used);
            let rest = rows_from(s, width, i + 1, cut, None, next_used);
            assert(r =~= seq![(start, end)] + rest);
            assert forall|k: int| 0 <= k < r.len() implies 0 <= (#[trigger] r[k]).0 <= r[k].1
                <= s.len() by {
                if k > 0 {
                    assert(r[k] == rest[k - 1]);
                }
            }
            assert forall|k: int| 0 <= k < r.len() - 1 implies (#[trigger] r[k]).1 <= r[k + 1].0
                && forall|j: int| r[k].1 <= j < r[k + 1].0 ==> blank(#[trigger] s[j]) by {
                assert(r[k + 1] == rest[k]);
                if k > 0 {
                    assert(r[k] == rest[k - 1]);
                    assert(rest[k - 1 + 1] == rest[k]);
                }
            }
        } else {
            lemma_rows_from(s, width, i + 1, start, last, used + cells(c));
        }
    }
}

} // verus!
