//! The text of a notes file together with its line index.

use vstd::prelude::*;
use vstd::utf8::*;

use crate::spans;
use crate::spans::{LineIndex, Span};
use crate::text;

verus! {

/// The core text container for a `.notes` file.
///
/// Holds the raw content as a UTF-8 string and maintains a [`LineIndex`]
/// for O(log n) byte-offset ↔ (line, col) conversions.
///
/// Every mutation (replace_span, append) rebuilds the LineIndex. This is
/// inexpensive for files up to tens of thousands of lines and keeps the
/// invariant that `line_index()` always reflects the current content.
pub struct TextBuffer {
    content: String,
    line_index: LineIndex,
}

impl View for TextBuffer {
    type V = Seq<char>;

    closed spec fn view(&self) -> Seq<char> {
        self.content@
    }
}

impl TextBuffer {
    /// The content as bytes.
    pub open spec fn bytes(&self) -> Seq<u8> {
        encode_utf8(self@)
    }

    /// The line index reflects the content.
    pub closed spec fn wf(&self) -> bool {
        &&& self.line_index.wf()
        &&& self.line_index.describes(encode_utf8(self.content@))
    }

    /// The bytes of line `l`, its newline included.
    pub open spec fn line_bytes(&self, l: int) -> Seq<u8> {
        self.bytes().subrange(self.line_from(l), self.line_to(l))
    }

    /// Number of lines.
    pub open spec fn lines(&self) -> int {
        spans::line_starts(self.bytes()).len() as int
    }

    /// First byte of line `l`.
    pub open spec fn line_from(&self, l: int) -> int {
        spans::line_starts(self.bytes())[l]
    }

    /// One past the last byte of line `l`.
    pub open spec fn line_to(&self, l: int) -> int {
        spans::line_stop(spans::line_starts(self.bytes()), self.bytes().len() as int, l)
    }

    pub fn new(content: String) -> (r: Self)
        ensures
            r.wf(),
            r@ == content@,
    {
        let line_index = LineIndex::build(content.as_str());
        Self { content, line_index }
    }

    pub fn empty() -> (r: Self)
        ensures
            r.wf(),
            r@.len() == 0,
    {
        Self::new(String::new())
    }

    // ---- Read access --------------------------------------------------------

    pub fn as_str(&self) -> (r: &str)
        ensures
            r@ == self@,
    {
        self.content.as_str()
    }

    pub fn len(&self) -> (r: usize)
        ensures
            r == self.bytes().len(),
    {
        text::byte_len(self.content.as_str())
    }

    pub fn is_empty(&self) -> (r: bool)
        ensures
            r == (self@.len() == 0),
    {
        self.content.as_str().is_empty()
    }

    pub fn line_count(&self) -> (r: usize)
        requires
            self.wf(),
        ensures
            r == self.lines(),
            1 <= r,
    {
        self.line_index.line_count()
    }

    pub fn line_index(&self) -> (r: &LineIndex)
        requires
            self.wf(),
        ensures
            r.wf(),
            r.describes(self.bytes()),
    {
        &self.line_index
    }

    /// Returns the text covered by `span`, which must lie in the buffer on
    /// char boundaries.
    pub fn span_text(&self, span: Span) -> (r: &str)
        requires
            span.lies_in(self.bytes()),
        ensures
            encode_utf8(r@) == span.of(self.bytes()),
    {
        text::slice(self.content.as_str(), span.start, span.end)
    }

    /// Returns the full text of line `line` including its trailing newline,
    /// or `None` if `line` is out of range.
    pub fn line_text(&self, line: usize) -> (r: Option<&str>)
        requires
            self.wf(),
        ensures
            r matches Some(t) ==> line < self.lines() && encode_utf8(t@) == self.line_bytes(
                line as int,
            ),
            r is None <==> line >= self.lines(),
    {
        match self.line_index.line_span(line) {
            Some(span) => {
                proof {
                    spans::lemma_line_on_boundary(self@, line as int);
                    spans::lemma_line_starts(self.bytes());
                }
                Some(self.span_text(span))
            },
            None => None,
        }
    }

    // ---- Mutation -----------------------------------------------------------

    /// Replace the text in `[span.start, span.end)` with `replacement`.
    ///
    /// All spans previously derived from this buffer become invalid and must
    /// be re-derived via the parser. This is intentional: the buffer is the
    /// source of truth; indexes are derived, not co-maintained.
    pub fn replace_span(&mut self, span: Span, replacement: &str)
        requires
            span.lies_in(old(self).bytes()),
        ensures
            final(self).wf(),
            final(self).bytes() == old(self).bytes().subrange(0, span.start as int) + encode_utf8(
                replacement@,
            ) + old(self).bytes().subrange(span.end as int, old(self).bytes().len() as int),
    {
        let mut out = String::new();
        let n = text::byte_len(self.content.as_str());
        proof {
            text::lemma_boundary_ends(self@);
        }
        text::push_str(&mut out, text::slice(self.content.as_str(), 0, span.start));
        text::push_str(&mut out, replacement);
        text::push_str(&mut out, text::slice(self.content.as_str(), span.end, n));
        self.content = out;
        self.line_index = LineIndex::build(self.content.as_str());
    }

    /// Append `text` at the end of the buffer.
    pub fn append(&mut self, text: &str)
        ensures
            final(self).wf(),
            final(self)@ == old(self)@ + text@,
    {
        text::push_str(&mut self.content, text);
        self.line_index = LineIndex::build(self.content.as_str());
    }

    /// Consume the buffer and return the owned content string (for atomic writes).
    pub fn into_content(self) -> (r: String)
        ensures
            r@ == self@,
    {
        self.content
    }
}

} // verus!
