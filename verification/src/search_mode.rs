//! The search overlay: a query, its matches, and the one in focus.

use vstd::prelude::*;
use vstd::utf8::*;

use crate::editing;
use crate::editing::EditorView;
use crate::editor::Editor;
use crate::keys::{Key, KeyCode};
use crate::positions;
use crate::search;
use crate::search_laws;
use crate::spans;
use crate::text;
use crate::words;
use crate::wrap;

verus! {

pub struct SearchState {
    pub query: String,
    /// `(line_idx, byte_in_line, match_len_bytes)` for every match in the file.
    pub matches: Vec<(usize, usize, usize)>,
    /// Index of the "current" (focused) match in `matches`.
    pub current: usize,
}

#[verifier::ext_equal]
pub struct SearchView {
    pub query: Seq<char>,
    pub matches: Seq<(usize, usize, usize)>,
    pub current: int,
}

impl View for SearchState {
    type V = SearchView;

    open spec fn view(&self) -> SearchView {
        SearchView { query: self.query@, matches: self.matches@, current: self.current as int }
    }
}

impl SearchView {
    pub open spec fn blank() -> SearchView {
        SearchView { query: Seq::empty(), matches: Seq::empty(), current: 0 }
    }

    /// The matches of a query, the nearest one at or after the cursor in focus.
    pub open spec fn found(query: Seq<char>, e: EditorView) -> SearchView {
        let matches = search::matches_of(e.bytes, query);
        SearchView { query, matches, current: search::nearest_from(matches, 0, e.line, e.byte) }
    }

    /// One match is in focus where there are any.
    pub open spec fn sound(self) -> bool {
        &&& self.matches.len() > 0 ==> 0 <= self.current < self.matches.len()
        &&& forall|k: int|
            0 <= k < self.matches.len() ==> (#[trigger] self.matches[k]).1 + self.matches[k].2
                <= usize::MAX
    }

    /// The editor at the match in focus, as far as that place exists.
    pub open spec fn focused(self, e: EditorView) -> EditorView {
        if 0 <= self.current < self.matches.len() {
            let m = self.matches[self.current];
            let (line, byte) = positions::kept_place(e.bytes, m.0 as int, m.1 as int);
            editing::in_view(editing::with_column(editing::at(e, line, byte)))
        } else {
            e
        }
    }

    /// The next or the previous match in focus, round and round.
    pub open spec fn turned(self, forward: bool) -> SearchView {
        let n = self.matches.len() as int;
        if n == 0 {
            self
        } else {
            SearchView {
                current: if forward {
                    if self.current + 1 < n {
                        self.current + 1
                    } else {
                        0
                    }
                } else if self.current > 0 {
                    self.current - 1
                } else {
                    n - 1
                },
                ..self
            }
        }
    }

    /// The query after a key that changes it.
    pub open spec fn edited(self, key: Key) -> Option<Seq<char>> {
        match key.code {
            KeyCode::Backspace => Some(
                if self.query.len() > 0 {
                    self.query.drop_last()
                } else {
                    self.query
                },
            ),
            KeyCode::Char(c) => if key.mods.ctrl || key.mods.alt {
                None
            } else {
                Some(self.query.push(c))
            },
            _ => None,
        }
    }

    /// Overlay and editor after a key that keeps the overlay open.
    pub open spec fn after(self, e: EditorView, key: Key) -> (SearchView, EditorView) {
        if advances(key) {
            let s = self.turned(!key.mods.shift);
            (
                s,
                if self.matches.len() > 0 {
                    s.focused(e)
                } else {
                    e
                },
            )
        } else {
            match self.edited(key) {
                Some(q) => {
                    let s = SearchView::found(q, e);
                    (s, s.focused(e))
                },
                None => (self, e),
            }
        }
    }
}

/// Enter and F3 go to the next match, with Shift to the previous one.
pub open spec fn advances(key: Key) -> bool {
    key.code == KeyCode::Enter || key.code == KeyCode::F(3)
}

impl SearchState {
    pub open spec fn wf(&self) -> bool {
        self@.sound()
    }

    pub fn new() -> (r: Self)
        ensures
            r@ == SearchView::blank(),
            r.wf(),
    {
        let r = SearchState { query: String::new(), matches: Vec::new(), current: 0 };
        proof {
            assert(r@ =~= SearchView::blank());
        }
        r
    }

    fn focus(&self, editor: &mut Editor)
        requires
            old(editor).wf(),
        ensures
            final(editor).wf(),
            final(editor)@ == self@.focused(old(editor)@),
            final(editor)@.bytes == old(editor)@.bytes,
    {
        if self.current < self.matches.len() {
            let m = self.matches[self.current];
            editor.go_to_place(m.0, m.1);
        }
    }

    /// Recompute the matches for a query, and go to the nearest one.
    pub fn update(&mut self, editor: &mut Editor, query: String)
        requires
            old(editor).wf(),
        ensures
            final(editor).wf(),
            final(self).wf(),
            final(self)@ == SearchView::found(query@, old(editor)@),
            final(editor)@ == final(self)@.focused(old(editor)@),
            final(editor)@.bytes == old(editor)@.bytes,
    {
        self.matches = search::compute_matches(&editor.buffer, query.as_str());
        self.current = search::find_nearest_match(
            &self.matches,
            editor.cursor_line,
            editor.cursor_byte,
        );
        self.query = query;
        let _n = editor.buffer.len();
        let _l = editor.buffer.line_count();
        proof {
            let b = editor@.bytes;
            encode_utf8_valid_utf8(editor.buffer@);
            search::law_matches_lie_in_lines(b, self.query@);
            spans::lemma_line_starts(b);
            assert forall|k: int| 0 <= k < self@.matches.len() implies (
            #[trigger] self@.matches[k]).1 + self@.matches[k].2 <= usize::MAX by {
                let m = self@.matches[k];
                assert(search::match_ok(b, m));
                wrap::lemma_line_valid(b, m.0 as int);
            }
        }
        self.focus(editor);
    }

    fn advance(&mut self, editor: &mut Editor, forward: bool)
        requires
            old(editor).wf(),
            old(self).wf(),
        ensures
            final(editor).wf(),
            final(self).wf(),
            final(self)@ == old(self)@.turned(forward),
            final(editor)@ == if old(self)@.matches.len() > 0 {
                final(self)@.focused(old(editor)@)
            } else {
                old(editor)@
            },
    {
        let n = self.matches.len();
        if n == 0 {
            return;
        }
        self.current =
        if forward {
            if self.current < n - 1 {
                self.current + 1
            } else {
                0
            }
        } else if self.current > 0 {
            self.current - 1
        } else {
            n - 1
        };
        self.focus(editor);
    }

    /// Handle a key while the overlay is open. Returns `true` if it closes.
    pub fn handle_key(&mut self, editor: &mut Editor, key: Key) -> (r: bool)
        requires
            old(editor).wf(),
            old(self).wf(),
        ensures
            final(editor).wf(),
            final(self).wf(),
            r == (key.code == KeyCode::Esc),
            r ==> final(editor)@ == old(editor)@,
            !r ==> (final(self)@, final(editor)@) == old(self)@.after(old(editor)@, key),
    {
        match key.code {
            KeyCode::Esc => {
                return true;
            },
            KeyCode::Enter => {
                self.advance(editor, !key.mods.shift);
            },
            KeyCode::F(n) => {
                if n == 3 {
                    self.advance(editor, !key.mods.shift);
                }
            },
            KeyCode::Backspace => {
                let q = words::without_last(self.query.as_str());
                self.update(editor, q);
            },
            KeyCode::Char(c) => {
                if !(key.mods.ctrl || key.mods.alt) {
                    let mut q = self.query.as_str().to_owned();
                    words::push_char(&mut q, c);
                    self.update(editor, q);
                }
            },
            _ => {},
        }
        false
    }
}

// ---------------------------------------------------------------------------
// Laws
// ---------------------------------------------------------------------------

/// Searching changes no text.
pub proof fn law_search_keeps_text(v: SearchView, e: EditorView, key: Key)
    ensures
        v.after(e, key).1.bytes == e.bytes,
        v.after(e, key).1.stacks == e.stacks,
{
}

/// Going forward and back again focuses the same match.
pub proof fn law_turning_back(v: SearchView)
    requires
        0 <= v.current < v.matches.len(),
    ensures
        v.turned(true).turned(false) == v,
        v.turned(false).turned(true) == v,
{
}

/// Enter and F3 go through the matches in a circle, one by one, with Shift the other way
/// round.
pub proof fn law_matches_in_a_circle(v: SearchView, e: EditorView, key: Key)
    requires
        key.code == KeyCode::Enter || key.code == KeyCode::F(3),
        0 <= v.current < v.matches.len(),
    ensures
        ({
            let n = v.matches.len() as int;
            let s = v.after(e, key).0;
            &&& s.query == v.query && s.matches == v.matches
            &&& s.current == if key.mods.shift {
                (v.current + n - 1) % n
            } else {
                (v.current + 1) % n
            }
        }),
{
    let n = v.matches.len() as int;
    if v.current + 1 < n {
        vstd::arithmetic::div_mod::lemma_small_mod((v.current + 1) as nat, n as nat);
    } else {
        vstd::arithmetic::div_mod::lemma_mod_self_0(n);
    }
    if v.current > 0 {
        vstd::arithmetic::div_mod::lemma_small_mod((v.current - 1) as nat, n as nat);
        vstd::arithmetic::div_mod::lemma_mod_add_multiples_vanish(v.current - 1, n);
        assert(v.current + n - 1 == n + (v.current - 1));
    } else {
        vstd::arithmetic::div_mod::lemma_small_mod((n - 1) as nat, n as nat);
    }
}

/// The cursor stands on the match in focus, at its first character: after a key that
/// changes the query on the nearest match of the new query, after one that goes on among
/// the matches on the next one.
pub proof fn law_cursor_on_match(v: SearchView, e: EditorView, key: Key)
    requires
        valid_utf8(e.bytes),
        e.bytes.len() <= usize::MAX,
        spans::line_starts(e.bytes).len() <= usize::MAX,
        v.matches == search::matches_of(e.bytes, v.query),
        v.matches.len() > 0 ==> 0 <= v.current < v.matches.len(),
    ensures
        ({
            let (s, f) = v.after(e, key);
            let typed = key.code matches KeyCode::Char(c) && !key.mods.ctrl && !key.mods.alt;
            &&& s.matches == search::matches_of(e.bytes, s.query)
            &&& typed ==> s.query == v.query.push(key.code->Char_0)
            &&& key.code == KeyCode::Backspace ==> s.query == if v.query.len() > 0 {
                v.query.subrange(0, v.query.len() - 1)
            } else {
                v.query
            }
            &&& typed || key.code == KeyCode::Backspace ==> s.current == search::nearest_from(
                s.matches,
                0,
                e.line,
                e.byte,
            )
            &&& s.matches.len() > 0 && (typed || key.code == KeyCode::Backspace || advances(key))
                ==> {
                &&& 0 <= s.current < s.matches.len()
                &&& f.line == s.matches[s.current].0
                &&& f.byte == s.matches[s.current].1
            }
            &&& s.matches.len() == 0 ==> f == e
        }),
{
    let (s, f) = v.after(e, key);
    search::law_matches_lie_in_lines(e.bytes, s.query);
    if s.matches.len() > 0 {
        search_laws::law_nearest_match(s.matches, e.line, e.byte);
        let m = s.matches[s.current];
        let b = e.bytes;
        let l = m.0 as int;
        assert(search::match_ok(b, m));
        wrap::lemma_line_valid(b, l);
        positions::lemma_line_end_ok(b, l);
        spans::lemma_line_starts(b);
        let start = spans::line_starts(b)[l];
        assert(wrap::content_bytes(wrap::line_of(b, l)) =~= b.subrange(
            start,
            start + positions::line_len(b, l),
        ));
        text::lemma_boundary_piece(b, start, start + positions::line_len(b, l), m.1 as int);
        assert(positions::place_ok(b, l, m.1 as int));
    }
    if v.query.len() > 0 {
        assert(v.query.drop_last() =~= v.query.subrange(0, v.query.len() - 1));
    }
}

} // verus!
