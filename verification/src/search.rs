//! Incremental search: all matches of a query, whatever their case.

use vstd::prelude::*;
use vstd::utf8::*;

use crate::buffer::TextBuffer;
use crate::spans;
use crate::text;
use crate::unicode;
use crate::wrap;

verus! {

/// The match of `n` characters at character `i` of line `l`: line, first byte and
/// length in bytes.
pub open spec fn match_at(content: Seq<char>, l: int, i: int, n: int) -> (usize, usize, usize) {
    (
        l as usize,
        text::byte_offset(content, i) as usize,
        (text::byte_offset(content, i + n) - text::byte_offset(content, i)) as usize,
    )
}

/// The matches of the folded query `q` that start before character `i` of a line.
pub open spec fn line_matches(content: Seq<char>, l: int, q: Seq<char>, i: int) -> Seq<
    (usize, usize, usize),
>
    decreases i,
{
    if i <= 0 {
        Seq::empty()
    } else {
        let before = line_matches(content, l, q, i - 1);
        if text::occurs_at(unicode::folded(content), i - 1, q) {
            before.push(match_at(content, l, i - 1, q.len() as int))
        } else {
            before
        }
    }
}

/// The matches in the first `l` lines.
pub open spec fn matches_upto(b: Seq<u8>, q: Seq<char>, l: int) -> Seq<(usize, usize, usize)>
    decreases l,
{
    if l <= 0 {
        Seq::empty()
    } else {
        let content = wrap::line_chars(b, l - 1);
        matches_upto(b, q, l - 1) + line_matches(content, l - 1, q, content.len() as int)
    }
}

/// All matches of `query`, in file order, overlapping ones too; none for an empty
/// query.
pub open spec fn matches_of(b: Seq<u8>, query: Seq<char>) -> Seq<(usize, usize, usize)> {
    if query.len() == 0 {
        Seq::empty()
    } else {
        matches_upto(b, unicode::folded(query), spans::line_starts(b).len() as int)
    }
}

fn same_at(cs: &Vec<char>, i: usize, q: &Vec<char>) -> (r: bool)
    requires
        i + q.len() <= cs.len(),
    ensures
        r == text::occurs_at(cs@, i as int, q@),
{
    let mut k: usize = 0;
    while k < q.len()
        invariant
            k <= q.len(),
            i + q.len() <= cs.len(),
            forall|j: int| 0 <= j < k ==> cs@[i + j] == #[trigger] q@[j],
        decreases q.len() - k,
    {
        if cs[i + k] != q[k] {
            proof {
                if text::occurs_at(cs@, i as int, q@) {
                    assert(cs@.subrange(i as int, i + q@.len())[k as int] == q@[k as int]);
                }
            }
            return false;
        }
        k += 1;
    }
    proof {
        assert(cs@.subrange(i as int, i + q@.len()) =~= q@);
    }
    true
}

fn push_line_matches(
    content: &str,
    line: usize,
    q: &Vec<char>,
    out: &mut Vec<(usize, usize, usize)>,
)
    requires
        q.len() > 0,
    ensures
        final(out)@ == old(out)@ + line_matches(content@, line as int, q@, content@.len() as int),
{
    let raw = text::chars_of(content);
    let cs = unicode::fold(&raw);
    let ghost start = out@;
    let mut i: usize = 0;
    proof {
        assert(start + line_matches(content@, line as int, q@, 0) =~= start);
    }
    while i < cs.len()
        invariant
            i <= cs.len(),
            q.len() > 0,
            cs@ == unicode::folded(content@),
            cs.len() == content@.len(),
            out@ == start + line_matches(content@, line as int, q@, i as int),
        decreases cs.len() - i,
    {
        if q.len() <= cs.len() - i && same_at(&cs, i, q) {
            let from = wrap::byte_at(content, i);
            let to = wrap::byte_at(content, i + q.len());
            proof {
                text::lemma_byte_offset_monotone(content@, i as int, i + q.len());
            }
            out.push((line, from, to - from));
        }
        i += 1;
        proof {
            assert(out@ =~= start + line_matches(content@, line as int, q@, i as int));
        }
    }
}

/// Return all `(line_idx, byte_in_line, match_len_bytes)` occurrences of
/// `query` in the buffer (case-insensitive Unicode fold).
pub fn compute_matches(buffer: &TextBuffer, query: &str) -> (r: Vec<(usize, usize, usize)>)
    requires
        buffer.wf(),
    ensures
        r@ == matches_of(buffer.bytes(), query@),
{
    let mut out: Vec<(usize, usize, usize)> = Vec::new();
    let raw = text::chars_of(query);
    if raw.len() == 0 {
        return out;
    }
    let q = unicode::fold(&raw);
    let n = buffer.line_count();
    let mut l: usize = 0;
    while l < n
        invariant
            l <= n,
            n == buffer.lines(),
            buffer.wf(),
            q.len() > 0,
            q@ == unicode::folded(query@),
            out@ == matches_upto(buffer.bytes(), q@, l as int),
        decreases n - l,
    {
        if let Some(line) = buffer.line_text(l) {
            let content = wrap::line_content(line);
            proof {
                encode_utf8_decode_utf8(content@);
                assert(content@ == wrap::line_chars(buffer.bytes(), l as int));
            }
            push_line_matches(content, l, &q, &mut out);
        }
        l += 1;
    }
    out
}

/// `m` lies at or after byte `byte` of line `line`.
pub open spec fn at_or_after(m: (usize, usize, usize), line: int, byte: int) -> bool {
    m.0 > line || (m.0 == line && m.1 >= byte)
}

/// The first match from `i` on that lies at or after the position; 0 if there is
/// none.
pub open spec fn nearest_from(
    matches: Seq<(usize, usize, usize)>,
    i: int,
    line: int,
    byte: int,
) -> int
    decreases matches.len() - i,
{
    if i < 0 || i >= matches.len() {
        0
    } else if at_or_after(matches[i], line, byte) {
        i
    } else {
        nearest_from(matches, i + 1, line, byte)
    }
}

/// Return the index of the first match at or after `(cursor_line, cursor_byte)`,
/// wrapping around to 0 if no later match exists.
pub fn find_nearest_match(
    matches: &Vec<(usize, usize, usize)>,
    cursor_line: usize,
    cursor_byte: usize,
) -> (r: usize)
    ensures
        r == nearest_from(matches@, 0, cursor_line as int, cursor_byte as int),
        matches.len() > 0 ==> r < matches.len(),
{
    let mut i: usize = 0;
    while i < matches.len()
        invariant
            i <= matches.len(),
            nearest_from(matches@, i as int, cursor_line as int, cursor_byte as int)
                == nearest_from(matches@, 0, cursor_line as int, cursor_byte as int),
        decreases matches.len() - i,
    {
        let m = matches[i];
        if m.0 > cursor_line || (m.0 == cursor_line && m.1 >= cursor_byte) {
            return i;
        }
        i += 1;
    }
    0
}

// ---------------------------------------------------------------------------
// Laws
// ---------------------------------------------------------------------------

/// A match is a place of the file: its line exists, and it starts and ends between
/// characters of that line's text.
pub open spec fn match_ok(b: Seq<u8>, m: (usize, usize, usize)) -> bool {
    let content = wrap::content_bytes(wrap::line_of(b, m.0 as int));
    &&& m.0 < spans::line_starts(b).len()
    &&& m.1 + m.2 <= content.len()
    &&& text::on_boundary(content, m.1 as int)
    &&& text::on_boundary(content, m.1 + m.2)
}

proof fn lemma_line_matches_ok(b: Seq<u8>, l: int, q: Seq<char>, i: int)
    requires
        valid_utf8(b),
        b.len() <= usize::MAX,
        0 <= l < spans::line_starts(b).len(),
        l <= usize::MAX,
        0 <= i <= wrap::line_chars(b, l).len(),
    ensures
        forall|k: int|
            0 <= k < line_matches(wrap::line_chars(b, l), l, q, i).len() ==> match_ok(
                b,
                #[trigger] line_matches(wrap::line_chars(b, l), l, q, i)[k],
            ),
    decreases i,
{
    if i > 0 {
        lemma_line_matches_ok(b, l, q, i - 1);
        let before = line_matches(wrap::line_chars(b, l), l, q, i - 1);
        let content = wrap::line_chars(b, l);
        if text::occurs_at(unicode::folded(content), i - 1, q) {
            wrap::lemma_line_valid(b, l);
            spans::lemma_line_starts(b);
            text::lemma_byte_offset_ends(content);
            text::lemma_byte_offset_monotone(content, i - 1, i - 1 + q.len());
            text::lemma_byte_offset_monotone(content, i - 1 + q.len(), content.len() as int);
            text::lemma_offset_on_boundary(content, i - 1);
            text::lemma_offset_on_boundary(content, i - 1 + q.len());
            assert(match_ok(b, match_at(content, l, i - 1, q.len() as int)));
            let all = line_matches(content, l, q, i);
            assert forall|k: int| 0 <= k < all.len() implies match_ok(b, #[trigger] all[k]) by {
                if k < before.len() {
                    assert(all[k] == before[k]);
                }
            }
        }
    }
}

proof fn lemma_matches_upto_ok(b: Seq<u8>, q: Seq<char>, l: int)
    requires
        valid_utf8(b),
        b.len() <= usize::MAX,
        spans::line_starts(b).len() <= usize::MAX,
        0 <= l <= spans::line_starts(b).len(),
    ensures
        forall|k: int|
            0 <= k < matches_upto(b, q, l).len() ==> match_ok(
                b,
                #[trigger] matches_upto(b, q, l)[k],
            ),
    decreases l,
{
    if l > 0 {
        lemma_matches_upto_ok(b, q, l - 1);
        spans::lemma_line_starts(b);
        let n = wrap::line_chars(b, l - 1).len() as int;
        lemma_line_matches_ok(b, l - 1, q, n);
        let before = matches_upto(b, q, l - 1);
        let here = line_matches(wrap::line_chars(b, l - 1), l - 1, q, n);
        let all = matches_upto(b, q, l);
        assert forall|k: int| 0 <= k < all.len() implies match_ok(b, #[trigger] all[k]) by {
            if k < before.len() {
                assert(all[k] == before[k]);
            } else {
                assert(all[k] == here[k - before.len()]);
            }
        }
    }
}

/// Every match lies in the text of its line, between characters.
pub proof fn law_matches_lie_in_lines(b: Seq<u8>, query: Seq<char>)
    requires
        valid_utf8(b),
        b.len() <= usize::MAX,
        spans::line_starts(b).len() <= usize::MAX,
    ensures
        forall|k: int|
            0 <= k < matches_of(b, query).len() ==> match_ok(b, #[trigger] matches_of(b, query)[k]),
{
    if query.len() > 0 {
        lemma_matches_upto_ok(b, unicode::folded(query), spans::line_starts(b).len() as int);
    }
}

} // verus!
