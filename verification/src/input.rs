//! A one-line text field with a cursor.

use vstd::prelude::*;
use vstd::string::StrSliceExecFns;
use vstd::utf8::*;

use crate::text;
use crate::words;

verus! {

/// A text and the byte at which the next character goes in.
pub struct TextInput {
    pub text: String,
    pub cursor: usize,
}

/// A text and the number of characters before the cursor.
#[verifier::ext_equal]
pub struct InputView {
    pub chars: Seq<char>,
    pub at: int,
}

/// The number of characters before byte `p`.
pub open spec fn chars_before(s: Seq<char>, p: int) -> int {
    decode_utf8(encode_utf8(s).subrange(0, p)).len() as int
}

impl View for TextInput {
    type V = InputView;

    open spec fn view(&self) -> InputView {
        InputView { chars: self.text@, at: chars_before(self.text@, self.cursor as int) }
    }
}

impl InputView {
    /// `s` put in at the cursor.
    pub open spec fn inserted(self, s: Seq<char>) -> InputView {
        InputView {
            chars: self.chars.subrange(0, self.at) + s + self.chars.subrange(
                self.at,
                self.chars.len() as int,
            ),
            at: self.at + s.len(),
        }
    }

    /// The character before the cursor taken out.
    pub open spec fn backspaced(self) -> InputView {
        if self.at > 0 {
            InputView { chars: self.chars.remove(self.at - 1), at: self.at - 1 }
        } else {
            self
        }
    }

    pub open spec fn moved_left(self) -> InputView {
        InputView {
            at: if self.at > 0 {
                self.at - 1
            } else {
                0
            },
            ..self
        }
    }

    pub open spec fn moved_right(self) -> InputView {
        InputView {
            at: if self.at < self.chars.len() {
                self.at + 1
            } else {
                self.at
            },
            ..self
        }
    }

    pub open spec fn moved_home(self) -> InputView {
        InputView { at: 0, ..self }
    }

    pub open spec fn moved_end(self) -> InputView {
        InputView { at: self.chars.len() as int, ..self }
    }
}

/// A boundary is the start of the character that as many characters precede.
pub proof fn lemma_chars_before(s: Seq<char>, p: int)
    requires
        text::on_boundary(encode_utf8(s), p),
    ensures
        0 <= chars_before(s, p) <= s.len(),
        text::byte_offset(s, chars_before(s, p)) == p,
        s.subrange(0, chars_before(s, p)) == decode_utf8(encode_utf8(s).subrange(0, p)),
{
    let b = encode_utf8(s);
    encode_utf8_valid_utf8(s);
    text::lemma_boundary(s, p);
    decode_utf8_split(b, p);
    encode_utf8_decode_utf8(s);
    let front = decode_utf8(b.subrange(0, p));
    text::lemma_boundary_ends(s);
    text::lemma_piece_decodes(s, 0, p);
    assert(s.subrange(0, front.len() as int) =~= front);
}

/// The start of character `k` has `k` characters before it.
pub proof fn lemma_offset_chars(s: Seq<char>, k: int)
    requires
        0 <= k <= s.len(),
    ensures
        chars_before(s, text::byte_offset(s, k)) == k,
        text::on_boundary(encode_utf8(s), text::byte_offset(s, k)),
{
    text::lemma_offset_on_boundary(s, k);
    text::lemma_byte_subrange(s, 0, k);
    text::lemma_byte_offset_ends(s);
    encode_utf8_decode_utf8(s.subrange(0, k));
}

impl TextInput {
    /// The cursor lies between characters.
    pub open spec fn wf(&self) -> bool {
        text::on_boundary(encode_utf8(self.text@), self.cursor as int)
    }

    /// A field that holds `text`, with the cursor at its end.
    pub fn new(text: String) -> (r: Self)
        ensures
            r.wf(),
            r@ == (InputView { chars: text@, at: text@.len() as int }),
    {
        let cursor = text::byte_len(text.as_str());
        proof {
            text::lemma_byte_offset_ends(text@);
            lemma_offset_chars(text@, text@.len() as int);
        }
        TextInput { text, cursor }
    }

    /// Number of characters before the cursor.
    pub fn chars_before_cursor(&self) -> (r: usize)
        requires
            self.wf(),
        ensures
            r == self@.at,
            r <= self@.chars.len(),
    {
        proof {
            text::lemma_boundary_ends(self.text@);
            lemma_chars_before(self.text@, self.cursor as int);
        }
        let front = text::slice(self.text.as_str(), 0, self.cursor);
        proof {
            encode_utf8_decode_utf8(front@);
        }
        front.unicode_len()
    }

    pub fn insert_str(&mut self, s: &str)
        requires
            old(self).wf(),
        ensures
            final(self).wf(),
            final(self)@ == old(self)@.inserted(s@),
    {
        let k = self.chars_before_cursor();
        let n = self.text.as_str().unicode_len();
        let ghost before = self.text@;
        let mut out = String::new();
        out.append(self.text.as_str().substring_char(0, k));
        out.append(s);
        let cursor = text::byte_len(out.as_str());
        let ghost front = out@;
        out.append(self.text.as_str().substring_char(k, n));
        proof {
            assert(front =~= before.subrange(0, k as int) + s@);
            assert(out@ =~= front + before.subrange(k as int, n as int));
            assert(out@.subrange(0, k + s@.len()) =~= front);
            lemma_offset_chars(out@, k + s@.len());
        }
        self.text = out;
        self.cursor = cursor;
    }

    pub fn insert_char(&mut self, c: char)
        requires
            old(self).wf(),
        ensures
            final(self).wf(),
            final(self)@ == old(self)@.inserted(seq![c]),
    {
        let mut s = String::new();
        words::push_char(&mut s, c);
        proof {
            assert(s@ =~= seq![c]);
        }
        self.insert_str(s.as_str());
    }

    /// Takes the character before the cursor out. Returns whether there was one.
    pub fn backspace(&mut self) -> (r: bool)
        requires
            old(self).wf(),
        ensures
            final(self).wf(),
            final(self)@ == old(self)@.backspaced(),
            r == (old(self)@.at > 0),
    {
        let k = self.chars_before_cursor();
        if k == 0 {
            return false;
        }
        let n = self.text.as_str().unicode_len();
        let ghost before = self.text@;
        let mut out = String::new();
        out.append(self.text.as_str().substring_char(0, k - 1));
        let cursor = text::byte_len(out.as_str());
        let ghost front = out@;
        out.append(self.text.as_str().substring_char(k, n));
        proof {
            assert(out@ =~= before.remove(k - 1));
            assert(out@.subrange(0, k - 1) =~= front);
            lemma_offset_chars(out@, k - 1);
        }
        self.text = out;
        self.cursor = cursor;
        true
    }

    pub fn left(&mut self)
        requires
            old(self).wf(),
        ensures
            final(self).wf(),
            final(self)@ == old(self)@.moved_left(),
    {
        proof {
            lemma_chars_before(self.text@, self.cursor as int);
            text::lemma_byte_offset_ends(self.text@);
        }
        let k = self.chars_before_cursor();
        if k > 0 {
            let front = self.text.as_str().substring_char(0, k - 1);
            proof {
                lemma_offset_chars(self.text@, k - 1);
            }
            self.cursor = text::byte_len(front);
        }
    }

    pub fn right(&mut self)
        requires
            old(self).wf(),
        ensures
            final(self).wf(),
            final(self)@ == old(self)@.moved_right(),
    {
        let k = self.chars_before_cursor();
        if k < self.text.as_str().unicode_len() {
            let front = self.text.as_str().substring_char(0, k + 1);
            proof {
                lemma_offset_chars(self.text@, k + 1);
            }
            self.cursor = text::byte_len(front);
        }
    }

    pub fn home(&mut self)
        requires
            old(self).wf(),
        ensures
            final(self).wf(),
            final(self)@ == old(self)@.moved_home(),
    {
        proof {
            text::lemma_byte_offset_ends(self.text@);
            lemma_offset_chars(self.text@, 0);
        }
        self.cursor = 0;
    }

    pub fn end(&mut self)
        requires
            old(self).wf(),
        ensures
            final(self).wf(),
            final(self)@ == old(self)@.moved_end(),
    {
        proof {
            text::lemma_byte_offset_ends(self.text@);
            lemma_offset_chars(self.text@, self.text@.len() as int);
        }
        self.cursor = text::byte_len(self.text.as_str());
    }
}

// ---------------------------------------------------------------------------
// Laws
// ---------------------------------------------------------------------------

/// Backspace takes a typed character back.
pub proof fn law_backspace_undoes_typing(v: InputView, c: char)
    requires
        0 <= v.at <= v.chars.len(),
    ensures
        v.inserted(seq![c]).backspaced() == v,
{
    assert(v.inserted(seq![c]).backspaced() =~= v);
}

} // verus!
