//! The spell-check wizard: one misspelling after the other.

use vstd::prelude::*;
use vstd::string::StrSliceExecFns;
use vstd::utf8::*;

use crate::buffer::TextBuffer;
use crate::editing;
use crate::editing::EditorView;
use crate::editor::Editor;
use crate::editor_laws;
use crate::filter_panel;
use crate::highlight;
use crate::keys::{Key, KeyCode};
use crate::positions;
use crate::spans;
use crate::spans::Span;
use crate::spell;
use crate::spell::{EngineView, SpellEngine};
use crate::style;
use crate::style::{Color, SpanView, Style, StyledLine};
use crate::text;
use crate::unicode;
use crate::words;
use crate::wrap;

verus! {

// ---------------------------------------------------------------------------
// Case
// ---------------------------------------------------------------------------

/// Number of letters among the first `n` characters.
pub open spec fn letters_upto(s: Seq<char>, n: int) -> int
    decreases n,
{
    if n <= 0 {
        0
    } else {
        letters_upto(s, n - 1) + if unicode::letter(s[n - 1]) {
            1int
        } else {
            0
        }
    }
}

/// No letter of the text is small.
pub open spec fn all_capitals(s: Seq<char>) -> bool {
    forall|i: int| 0 <= i < s.len() ==> !unicode::letter(#[trigger] s[i]) || unicode::capital(s[i])
}

/// `suggestion` in the case pattern of `original`: capitals for a word in
/// capitals, a capital first for a word that begins with one, else small letters.
pub open spec fn cased(original: Seq<char>, suggestion: Seq<char>) -> Seq<char> {
    if original.len() == 0 {
        suggestion
    } else if all_capitals(original) && letters_upto(original, original.len() as int) > 1 {
        unicode::upper_text(suggestion)
    } else if unicode::capital(original[0]) {
        if suggestion.len() == 0 {
            unicode::lower_text(suggestion)
        } else {
            unicode::upper_chars(suggestion[0]) + unicode::lower_text(
                suggestion.subrange(1, suggestion.len() as int),
            )
        }
    } else {
        unicode::lower_text(suggestion)
    }
}

/// Preserve the case pattern of `original` when substituting `suggestion`.
/// Title-case original → Title-case result; UPPER → UPPER; otherwise lower.
pub fn case_preserving(original: &str, suggestion: &str) -> (r: String)
    ensures
        r@ == cased(original@, suggestion@),
{
    let cs = text::chars_of(original);
    if cs.len() == 0 {
        return suggestion.to_owned();
    }
    let mut upper = true;
    let mut letters: usize = 0;
    let mut i: usize = 0;
    while i < cs.len()
        invariant
            i <= cs.len(),
            cs@ == original@,
            letters <= i,
            letters == letters_upto(original@, i as int),
            upper == (forall|k: int|
                0 <= k < i ==> !unicode::letter(#[trigger] original@[k]) || unicode::capital(
                    original@[k],
                )),
        decreases cs.len() - i,
    {
        let c = cs[i];
        if unicode::is_letter(c) {
            letters += 1;
            if !unicode::is_capital(c) {
                upper = false;
            }
        }
        i += 1;
    }
    if upper && letters > 1 {
        return unicode::to_upper_text(suggestion);
    }
    if unicode::is_capital(cs[0]) {
        let n = suggestion.unicode_len();
        if n == 0 {
            return unicode::to_lower_text(suggestion);
        }
        let first = unicode::uppercase_of(suggestion.get_char(0));
        let mut out = String::new();
        let mut k: usize = 0;
        proof {
            assert(out@ =~= first@.subrange(0, 0));
        }
        while k < first.len()
            invariant
                k <= first.len(),
                out@ == first@.subrange(0, k as int),
            decreases first.len() - k,
        {
            words::push_char(&mut out, first[k]);
            k += 1;
            proof {
                assert(out@ =~= first@.subrange(0, k as int));
            }
        }
        proof {
            assert(first@.subrange(0, k as int) =~= first@);
        }
        out.append(unicode::to_lower_text(suggestion.substring_char(1, n)).as_str());
        return out;
    }
    unicode::to_lower_text(suggestion)
}

// ---------------------------------------------------------------------------
// Misspellings
// ---------------------------------------------------------------------------

/// The text of a word of the file.
pub open spec fn word_text(b: Seq<u8>, w: (int, int)) -> Seq<char> {
    decode_utf8(b.subrange(w.0, w.1))
}

/// How many of the first `n` words are misspelled.
pub open spec fn misspelled_upto(b: Seq<u8>, e: EngineView, ws: Seq<(int, int)>, n: int) -> int
    decreases n,
{
    if n <= 0 {
        0
    } else {
        misspelled_upto(b, e, ws, n - 1) + if spell::correct(e, word_text(b, ws[n - 1])) {
            0int
        } else {
            1
        }
    }
}

/// The first word from `i` on that is misspelled and not skipped.
pub open spec fn misspelled_from(
    b: Seq<u8>,
    e: EngineView,
    skipped: Set<Seq<char>>,
    ws: Seq<(int, int)>,
    i: int,
) -> Option<(int, int)>
    decreases ws.len() - i,
{
    if i < 0 || i >= ws.len() {
        None
    } else if !spell::correct(e, word_text(b, ws[i])) && !skipped.contains(
        words::lower(word_text(b, ws[i])),
    ) {
        Some(ws[i])
    } else {
        misspelled_from(b, e, skipped, ws, i + 1)
    }
}

/// A range of the text, as far as it lies in it, cuts no character.
pub open spec fn can_check(b: Seq<u8>, from: int, to: int) -> bool {
    from < to ==> {
        &&& from < b.len() ==> text::on_boundary(b, from)
        &&& to < b.len() ==> text::on_boundary(b, to)
    }
}

/// The first misspelling in `[from, to)` that is not skipped.
pub open spec fn next_bad(
    b: Seq<u8>,
    e: EngineView,
    skipped: Set<Seq<char>>,
    from: int,
    to: int,
) -> Option<(int, int)> {
    misspelled_from(b, e, skipped, spell::words_to_check(b, from, to), 0)
}

/// How many words in `[from, to)` are misspelled.
pub open spec fn bad_count(b: Seq<u8>, e: EngineView, from: int, to: int) -> int {
    let ws = spell::words_to_check(b, from, to);
    misspelled_upto(b, e, ws, ws.len() as int)
}

pub struct Misspelling {
    pub span: Span,
    pub word: String,
}

/// Find the first misspelling whose span starts at or after `from`,
/// skipping any words in the session-skip set.
pub fn next_misspelling(
    buffer: &TextBuffer,
    engine: &SpellEngine,
    skipped: &Vec<String>,
    from: usize,
    to: usize,
) -> (r: Option<Misspelling>)
    requires
        can_check(buffer.bytes(), from as int, to as int),
    ensures
        match (
            r,
            next_bad(
                buffer.bytes(),
                engine@,
                spell::text_set(skipped@),
                from as int,
                to as int,
            ),
        ) {
            (Some(m), Some(w)) => (m.span.start as int, m.span.end as int) == w && m.span.lies_in(
                buffer.bytes(),
            ) && encode_utf8(m.word@) == m.span.of(buffer.bytes()),
            (None, None) => true,
            _ => false,
        },
{
    let ghost b = buffer.bytes();
    let tokens = spell::tokenize_for_spell(buffer.as_str(), from, to);
    let ghost ws = spell::words_to_check(b, from as int, to as int);
    let mut i: usize = 0;
    while i < tokens.len()
        invariant
            i <= tokens.len(),
            b == buffer.bytes(),
            ws == spell::words_to_check(b, from as int, to as int),
            spell::token_spans(tokens@) == ws,
            spell::texts_match(b, tokens@),
            misspelled_from(b, engine@, spell::text_set(skipped@), ws, i as int)
                == misspelled_from(b, engine@, spell::text_set(skipped@), ws, 0),
        decreases tokens.len() - i,
    {
        let t = &tokens[i];
        proof {
            assert(spell::token_spans(tokens@)[i as int] == (
                tokens@[i as int].span.start as int,
                tokens@[i as int].span.end as int,
            ));
            encode_utf8_decode_utf8(t.text@);
        }
        if !engine.is_correct(t.text.as_str()) {
            let lower = words::to_ascii_lowercase(t.text.as_str());
            if !spell::has_text(skipped, lower.as_str()) {
                return Some(Misspelling { span: t.span, word: t.text.as_str().to_owned() });
            }
        }
        i += 1;
    }
    None
}

/// How many words of the range are misspelled.
pub fn count_misspellings(buffer: &TextBuffer, engine: &SpellEngine, from: usize, to: usize) -> (r:
    usize)
    requires
        can_check(buffer.bytes(), from as int, to as int),
    ensures
        r == bad_count(buffer.bytes(), engine@, from as int, to as int),
{
    let ghost b = buffer.bytes();
    let tokens = spell::tokenize_for_spell(buffer.as_str(), from, to);
    let ghost ws = spell::words_to_check(b, from as int, to as int);
    let mut n: usize = 0;
    let mut i: usize = 0;
    while i < tokens.len()
        invariant
            i <= tokens.len(),
            n <= i,
            b == buffer.bytes(),
            spell::token_spans(tokens@) == ws,
            spell::texts_match(b, tokens@),
            n == misspelled_upto(b, engine@, ws, i as int),
        decreases tokens.len() - i,
    {
        let t = &tokens[i];
        proof {
            assert(spell::token_spans(tokens@)[i as int] == (
                tokens@[i as int].span.start as int,
                tokens@[i as int].span.end as int,
            ));
            encode_utf8_decode_utf8(t.text@);
        }
        if !engine.is_correct(t.text.as_str()) {
            n += 1;
        }
        i += 1;
    }
    n
}

// ---------------------------------------------------------------------------
// State
// ---------------------------------------------------------------------------

pub struct SpellWizardState {
    pub scope: Span,
    pub current: Misspelling,
    pub suggestions: Vec<String>,
    pub selected: usize,
    pub session_skipped: Vec<String>,
    /// Total misspellings counted at the start of the session — for progress.
    pub initial_total: usize,
    /// How many have been processed (fixed / skipped / added).
    pub processed: usize,
    pub error: Option<String>,
}

#[verifier::ext_equal]
pub struct WizardView {
    pub scope: (int, int),
    pub span: (int, int),
    pub word: Seq<char>,
    pub suggestions: Seq<Seq<char>>,
    pub selected: int,
    pub skipped: Set<Seq<char>>,
    pub total: int,
    pub processed: int,
    pub error: Option<Seq<char>>,
}

impl View for SpellWizardState {
    type V = WizardView;

    open spec fn view(&self) -> WizardView {
        WizardView {
            scope: (self.scope.start as int, self.scope.end as int),
            span: (self.current.span.start as int, self.current.span.end as int),
            word: self.current.word@,
            suggestions: words::texts(self.suggestions@),
            selected: self.selected as int,
            skipped: spell::text_set(self.session_skipped@),
            total: self.initial_total as int,
            processed: self.processed as int,
            error: filter_panel::text_view(self.error),
        }
    }
}

/// One more, as far as it fits.
pub open spec fn one_more(n: int) -> int {
    if n < usize::MAX {
        n + 1
    } else {
        n
    }
}

fn bump(n: usize) -> (r: usize)
    ensures
        r == one_more(n as int),
{
    if n < usize::MAX {
        n + 1
    } else {
        n
    }
}

/// The wizard at a misspelling, with up to five suggestions for it.
pub open spec fn at_word(v: WizardView, b: Seq<u8>, e: EngineView, w: (int, int)) -> WizardView {
    WizardView {
        span: w,
        word: word_text(b, w),
        suggestions: spell::suggestions(e, word_text(b, w), 5),
        selected: 0,
        ..v
    }
}

/// The wizard after a word is dealt with: at the next misspelling from `from` on,
/// or at its end.
pub open spec fn advanced(v: WizardView, b: Seq<u8>, e: EngineView, from: int) -> Option<
    WizardView,
> {
    let start = if from > v.scope.0 {
        from
    } else {
        v.scope.0
    };
    match next_bad(b, e, v.skipped, start, v.scope.1) {
        Some(w) => Some(
            at_word(
                WizardView { processed: one_more(v.processed), error: None, ..v },
                b,
                e,
                w,
            ),
        ),
        None => None,
    }
}

/// What is said at the end.
pub open spec fn closing_text(processed: int) -> Seq<char> {
    "Spell check complete ("@ + words::decimal(processed as nat) + (if processed == 1 {
        " word processed)"@
    } else {
        " words processed)"@
    })
}

/// The editor at a misspelling.
pub open spec fn shown_at(e: EditorView, off: int) -> EditorView {
    editing::in_view(editing::at_offset(e, off))
}

/// The text with the current word replaced by a suggestion in its case.
pub open spec fn fixed(v: WizardView, e: EditorView, suggestion: Seq<char>) -> EditorView {
    editing::settled(
        editing::edited(editing::entered(e), v.span.0, v.span.1, cased(v.word, suggestion)),
    )
}

/// The current word lies in the range.
pub open spec fn nested(v: WizardView) -> bool {
    v.scope.0 <= v.span.0 <= v.span.1 <= v.scope.1
}

/// The current word stands in the text between characters, and the range ends so or
/// reaches past the text.
pub open spec fn in_range(v: WizardView, b: Seq<u8>) -> bool {
    &&& nested(v)
    &&& 0 <= v.scope.0
    &&& v.span.1 <= b.len()
    &&& text::on_boundary(b, v.span.0)
    &&& text::on_boundary(b, v.span.1)
    &&& v.scope.1 < b.len() ==> text::on_boundary(b, v.scope.1)
}

/// A range lies in the text of one line, between characters.
pub open spec fn can_show(b: Seq<u8>, span: (int, int)) -> bool {
    let l = positions::line_at(b, span.0);
    &&& 0 <= span.0 <= span.1 <= b.len()
    &&& text::on_boundary(b, span.0)
    &&& text::on_boundary(b, span.1)
    &&& span.1 - spans::line_starts(b)[l] <= positions::line_len(b, l)
}

/// The wizard over another text: a range that would end inside a character of it goes
/// to the end of the text.
pub open spec fn refitted(v: WizardView, b: Seq<u8>) -> WizardView {
    WizardView {
        scope: (
            v.scope.0,
            if v.scope.1 < b.len() && !text::on_boundary(b, v.scope.1) {
                b.len() as int
            } else {
                v.scope.1
            },
        ),
        ..v
    }
}

/// The wizard after that: its range grows and shrinks with the text, as far as its end
/// fits.
pub open spec fn after_fix(v: WizardView, suggestion: Seq<char>) -> WizardView {
    let end = v.scope.1 - (v.span.1 - v.span.0) + encode_utf8(cased(v.word, suggestion)).len();
    WizardView {
        scope: (
            v.scope.0,
            if end <= usize::MAX {
                end
            } else {
                usize::MAX as int
            },
        ),
        ..v
    }
}

/// What a key leads to.
pub enum WizardOutcome {
    /// The wizard stays open.
    Stay,
    /// Esc: the wizard closes.
    Close,
    /// No misspelling is left: the wizard closes with a message.
    Done(String),
    /// The current word is to be added to the user dictionary.
    AddWord,
}

/// The suggestion that a key picks.
pub open spec fn picked(v: WizardView, key: Key) -> Option<Seq<char>> {
    let i = match key.code {
        KeyCode::Enter => v.selected,
        KeyCode::Char(c) => if '1' <= c <= '5' {
            c as int - '1' as int
        } else {
            -1
        },
        _ => -1,
    };
    if 0 <= i < v.suggestions.len() {
        Some(v.suggestions[i])
    } else {
        None
    }
}

/// The wizard after a key that only picks among the suggestions.
pub open spec fn browsed(v: WizardView, key: Key) -> WizardView {
    match key.code {
        KeyCode::Down => WizardView {
            selected: if v.selected + 1 < v.suggestions.len() {
                v.selected + 1
            } else {
                v.selected
            },
            ..v
        },
        KeyCode::Up => WizardView {
            selected: if v.selected > 0 {
                v.selected - 1
            } else {
                0
            },
            ..v
        },
        _ => v,
    }
}

/// What a step to the next misspelling leaves: wizard and editor there, or the
/// closing message and the editor as it is.
pub open spec fn stepped(
    next: Option<WizardView>,
    processed: int,
    e: EditorView,
    wizard: WizardView,
    editor: EditorView,
    outcome: WizardOutcome,
) -> bool {
    match next {
        Some(w) => outcome is Stay && wizard == w && editor == shown_at(e, w.span.0),
        None => outcome is Done && outcome->Done_0@ == closing_text(one_more(processed)) && editor
            == e,
    }
}

/// A range's end moves with the text behind an edit.
proof fn lemma_tail_boundary(b: Seq<u8>, from: int, to: int, s: Seq<char>, p: int)
    requires
        valid_utf8(b),
        0 <= from <= to <= p <= b.len(),
        text::on_boundary(b, from),
        text::on_boundary(b, to),
        text::on_boundary(b, p),
    ensures
        text::on_boundary(
            editing::spliced(b, from, to, s),
            p - (to - from) + encode_utf8(s).len(),
        ),
{
    editing::lemma_spliced(b, from, to, s);
    let c = editing::spliced(b, from, to, s);
    let q = p - (to - from) + encode_utf8(s).len();
    assert(c.len() == b.len() - (to - from) + encode_utf8(s).len());
    if p < b.len() {
        assert(c[q] == b[p]);
    }
}

impl SpellWizardState {
    /// The current word lies in the text.
    pub open spec fn wf(&self, e: EditorView) -> bool {
        in_range(self@, e.bytes) && self.suggestions.len() <= 5
    }

    /// The text was replaced under the wizard. Returns `false` where its word cannot be
    /// shown on its line any more.
    pub fn refit(&mut self, editor: &Editor) -> (r: bool)
        requires
            editor.wf(),
            nested(old(self)@),
        ensures
            r == can_show(editor@.bytes, old(self)@.span),
            r ==> final(self)@ == refitted(old(self)@, editor@.bytes) && in_range(
                final(self)@,
                editor@.bytes,
            ),
            final(self).suggestions == old(self).suggestions,
    {
        let n = editor.buffer.len();
        let t = editor.buffer.as_str();
        let span = self.current.span;
        if span.start > span.end || span.end > n || !text::at_boundary(t, span.start)
            || !text::at_boundary(t, span.end) {
            return false;
        }
        let (l, at) = positions::locate(&editor.buffer, span.start);
        let len = wrap::line_content_len(positions::text_of_line(&editor.buffer, l));
        proof {
            text::lemma_boundary_ends(editor.buffer@);
        }
        if at > len || span.end - span.start > len - at {
            return false;
        }
        if self.scope.end < n && !text::at_boundary(t, self.scope.end) {
            self.scope = Span::new(self.scope.start, n);
        }
        true
    }

    /// Start on a range of the text: at its first misspelling, or `None` if there
    /// is none.
    pub fn start(editor: &mut Editor, engine: &SpellEngine, scope: Span) -> (r: Option<Self>)
        requires
            old(editor).wf(),
            can_check(old(editor)@.bytes, scope.start as int, scope.end as int),
        ensures
            final(editor).wf(),
            match (
                r,
                next_bad(
                    old(editor)@.bytes,
                    engine@,
                    Set::empty(),
                    scope.start as int,
                    scope.end as int,
                ),
            ) {
                (Some(s), Some(w)) => {
                    &&& s.wf(final(editor)@)
                    &&& final(editor)@ == shown_at(old(editor)@, w.0)
                    &&& s@ == at_word(
                        (WizardView {
                            scope: (scope.start as int, scope.end as int),
                            span: w,
                            word: Seq::empty(),
                            suggestions: Seq::empty(),
                            selected: 0,
                            skipped: Set::empty(),
                            total: bad_count(
                                old(editor)@.bytes,
                                engine@,
                                scope.start as int,
                                scope.end as int,
                            ),
                            processed: 0,
                            error: None,
                        }),
                        old(editor)@.bytes,
                        engine@,
                        w,
                    )
                },
                (None, None) => final(editor)@ == old(editor)@,
                _ => false,
            },
    {
        let session_skipped: Vec<String> = Vec::new();
        proof {
            assert(spell::text_set(session_skipped@) =~= Set::<Seq<char>>::empty());
        }
        let initial_total = count_misspellings(&editor.buffer, engine, scope.start, scope.end);
        let first = next_misspelling(
            &editor.buffer,
            engine,
            &session_skipped,
            scope.start,
            scope.end,
        );
        match first {
            None => None,
            Some(m) => {
                let suggestions = engine.suggest(m.word.as_str(), 5);
                proof {
                    assert(words::texts(suggestions@).len() == suggestions.len());
                    lemma_next_bad_in_range(
                        editor@.bytes,
                        engine@,
                        Set::empty(),
                        scope.start as int,
                        scope.end as int,
                    );
                    encode_utf8_decode_utf8(m.word@);
                }
                editor.go_to_offset(m.span.start);
                Some(
                    SpellWizardState {
                        scope,
                        current: m,
                        suggestions,
                        selected: 0,
                        session_skipped,
                        initial_total,
                        processed: 0,
                        error: None,
                    },
                )
            },
        }
    }

    /// Count the word as dealt with and go to the next misspelling from `from` on.
    fn advance(&mut self, editor: &mut Editor, engine: &SpellEngine, from: usize) -> (r:
        WizardOutcome)
        requires
            old(editor).wf(),
            old(self).scope.end < old(editor)@.bytes.len() ==> text::on_boundary(
                old(editor)@.bytes,
                old(self).scope.end as int,
            ),
            old(self).scope.start <= from <= old(self).scope.end,
            from <= old(editor)@.bytes.len(),
            text::on_boundary(old(editor)@.bytes, from as int),
        ensures
            final(editor).wf(),
            r is Stay ==> final(self).wf(final(editor)@),
            stepped(
                advanced(old(self)@, old(editor)@.bytes, engine@, from as int),
                old(self)@.processed,
                old(editor)@,
                final(self)@,
                final(editor)@,
                r,
            ),
    {
        self.processed = bump(self.processed);
        let start = if from > self.scope.start {
            from
        } else {
            self.scope.start
        };
        let next = next_misspelling(
            &editor.buffer,
            engine,
            &self.session_skipped,
            start,
            self.scope.end,
        );
        match next {
            Some(m) => {
                proof {
                    lemma_next_bad_in_range(
                        editor@.bytes,
                        engine@,
                        spell::text_set(self.session_skipped@),
                        start as int,
                        self.scope.end as int,
                    );
                    encode_utf8_decode_utf8(m.word@);
                }
                self.suggestions = engine.suggest(m.word.as_str(), 5);
                proof {
                    assert(words::texts(self.suggestions@).len() == self.suggestions.len());
                }
                self.selected = 0;
                self.error = None;
                editor.go_to_offset(m.span.start);
                self.current = m;
                WizardOutcome::Stay
            },
            None => {
                let mut msg = String::from_str("Spell check complete (");
                words::push_decimal(&mut msg, self.processed);
                if self.processed == 1 {
                    msg.append(" word processed)");
                } else {
                    msg.append(" words processed)");
                }
                WizardOutcome::Done(msg)
            },
        }
    }

    /// Replace the current word by suggestion `idx`, if there is one.
    fn apply_spell_fix(&mut self, editor: &mut Editor, engine: &SpellEngine, idx: usize) -> (r:
        WizardOutcome)
        requires
            old(editor).wf(),
            old(self).wf(old(editor)@),
        ensures
            final(editor).wf(),
            r is Stay ==> final(self).wf(final(editor)@),
            idx < old(self)@.suggestions.len() ==> ({
                let s = old(self)@.suggestions[idx as int];
                let e = fixed(old(self)@, old(editor)@, s);
                stepped(
                    advanced(
                        after_fix(old(self)@, s),
                        e.bytes,
                        engine@,
                        old(self)@.span.0 + encode_utf8(cased(old(self)@.word, s)).len(),
                    ),
                    old(self)@.processed,
                    e,
                    final(self)@,
                    final(editor)@,
                    r,
                )
            }),
            idx >= old(self)@.suggestions.len() ==> r is Stay && final(self)@ == old(self)@
                && final(editor)@ == old(editor)@,
    {
        if idx >= self.suggestions.len() {
            return WizardOutcome::Stay;
        }
        proof {
            assert(words::texts(self.suggestions@)[idx as int] == self.suggestions@[idx as int]@);
        }
        let replacement = case_preserving(
            self.current.word.as_str(),
            self.suggestions[idx].as_str(),
        );
        let m = text::byte_len(replacement.as_str());
        let span = self.current.span;
        let ghost b = editor@.bytes;
        proof {
            encode_utf8_valid_utf8(editor.buffer@);
            editing::lemma_spliced(b, span.start as int, span.end as int, replacement@);
            if self.scope.end <= b.len() {
                text::lemma_boundary_ends(editor.buffer@);
                lemma_tail_boundary(
                    b,
                    span.start as int,
                    span.end as int,
                    replacement@,
                    self.scope.end as int,
                );
            }
        }
        // Apply the edit as a single undo entry.
        editor.replace_span(span, replacement.as_str());
        let n = editor.buffer.len();
        proof {
            assert(n == b.len() - (span.end - span.start) + m);
        }
        let tail = self.scope.end - span.end;
        let from = span.start + m;
        let end = if tail <= usize::MAX - from {
            from + tail
        } else {
            usize::MAX
        };
        self.scope = Span::new(self.scope.start, end);
        self.advance(editor, engine, from)
    }

    /// Skip the current word for the rest of the session.
    fn skip_current(&mut self, editor: &mut Editor, engine: &SpellEngine) -> (r: WizardOutcome)
        requires
            old(editor).wf(),
            old(self).wf(old(editor)@),
        ensures
            final(editor).wf(),
            r is Stay ==> final(self).wf(final(editor)@),
            stepped(
                advanced(
                    (WizardView {
                        skipped: old(self)@.skipped.insert(words::lower(old(self)@.word)),
                        ..old(self)@
                    }),
                    old(editor)@.bytes,
                    engine@,
                    old(self)@.span.1,
                ),
                old(self)@.processed,
                old(editor)@,
                final(self)@,
                final(editor)@,
                r,
            ),
    {
        let lower = words::to_ascii_lowercase(self.current.word.as_str());
        spell::add_text(&mut self.session_skipped, lower);
        let from = self.current.span.end;
        self.advance(editor, engine, from)
    }

    /// The current word is in the user dictionary by now: go on.
    pub fn word_added(&mut self, editor: &mut Editor, engine: &SpellEngine) -> (r: WizardOutcome)
        requires
            old(editor).wf(),
            old(self).wf(old(editor)@),
        ensures
            final(editor).wf(),
            r is Stay ==> final(self).wf(final(editor)@),
            stepped(
                advanced(old(self)@, old(editor)@.bytes, engine@, old(self)@.span.1),
                old(self)@.processed,
                old(editor)@,
                final(self)@,
                final(editor)@,
                r,
            ),
    {
        let from = self.current.span.end;
        self.advance(editor, engine, from)
    }

    /// The user dictionary could not be written.
    pub fn add_failed(&mut self, message: &str)
        ensures
            final(self)@ == (WizardView {
                error: Some("add failed: "@ + message@),
                ..old(self)@
            }),
            final(self).scope == old(self).scope,
            final(self).current == old(self).current,
            final(self).suggestions == old(self).suggestions,
    {
        let mut s = String::from_str("add failed: ");
        s.append(message);
        self.error = Some(s);
    }

    /// Handle a key while the wizard is open.
    pub fn handle_key(&mut self, editor: &mut Editor, engine: &SpellEngine, key: Key) -> (r:
        WizardOutcome)
        requires
            old(editor).wf(),
            old(self).wf(old(editor)@),
        ensures
            final(editor).wf(),
            r is Stay || r is AddWord ==> final(self).wf(final(editor)@),
            key.code == KeyCode::Esc ==> r is Close && final(editor)@ == old(editor)@,
            key.code == KeyCode::Char('a') ==> r is AddWord && final(self)@ == old(self)@
                && final(editor)@ == old(editor)@,
            key.code == KeyCode::Char('s') ==> stepped(
                advanced(
                    (WizardView {
                        skipped: old(self)@.skipped.insert(words::lower(old(self)@.word)),
                        ..old(self)@
                    }),
                    old(editor)@.bytes,
                    engine@,
                    old(self)@.span.1,
                ),
                old(self)@.processed,
                old(editor)@,
                final(self)@,
                final(editor)@,
                r,
            ),
            picked(old(self)@, key) matches Some(s) ==> ({
                let e = fixed(old(self)@, old(editor)@, s);
                stepped(
                    advanced(
                        after_fix(old(self)@, s),
                        e.bytes,
                        engine@,
                        old(self)@.span.0 + encode_utf8(cased(old(self)@.word, s)).len(),
                    ),
                    old(self)@.processed,
                    e,
                    final(self)@,
                    final(editor)@,
                    r,
                )
            }),
            key.code != KeyCode::Esc && key.code != KeyCode::Char('a') && key.code
                != KeyCode::Char('s') && picked(old(self)@, key) is None ==> r is Stay
                && final(self)@ == browsed(old(self)@, key) && final(editor)@ == old(editor)@,
    {
        match key.code {
            KeyCode::Esc => WizardOutcome::Close,
            KeyCode::Down => {
                if self.suggestions.len() > 0 && self.selected < self.suggestions.len() - 1 {
                    self.selected = self.selected + 1;
                }
                WizardOutcome::Stay
            },
            KeyCode::Up => {
                if self.selected > 0 {
                    self.selected = self.selected - 1;
                }
                WizardOutcome::Stay
            },
            KeyCode::Enter => {
                let idx = self.selected;
                self.apply_spell_fix(editor, engine, idx)
            },
            KeyCode::Char(c) => {
                if '1' <= c && c <= '5' {
                    let idx: usize = (c as u32 - '1' as u32) as usize;
                    self.apply_spell_fix(editor, engine, idx)
                } else if c == 's' {
                    self.skip_current(editor, engine)
                } else if c == 'a' {
                    WizardOutcome::AddWord
                } else {
                    WizardOutcome::Stay
                }
            },
            _ => WizardOutcome::Stay,
        }
    }
}

// ---------------------------------------------------------------------------
// Screen
// ---------------------------------------------------------------------------

/// What the wizard shows.
pub struct WizardScreen {
    pub title: String,
    pub word_line: StyledLine,
    pub context: StyledLine,
    pub rows: Vec<StyledLine>,
    pub footer: &'static str,
}

/// At most `n`.
pub open spec fn capped(i: int, n: int) -> int {
    if i < n {
        i
    } else {
        n
    }
}

/// A piece of a text, by bytes.
pub open spec fn piece(s: Seq<char>, from: int, to: int) -> Seq<char> {
    decode_utf8(encode_utf8(s).subrange(from, to))
}

/// The line of a word, with the word marked in it.
pub open spec fn context_line(b: Seq<u8>, span: (int, int)) -> Seq<SpanView> {
    let l = positions::line_at(b, span.0);
    let content = wrap::line_chars(b, l);
    let n = encode_utf8(content).len() as int;
    let from = capped(span.0 - spans::line_starts(b)[l], n);
    let to = capped(span.1 - spans::line_starts(b)[l], n);
    seq![
        style::run("Context: "@, Style::colored(Color::DarkGray)),
        style::raw(piece(content, 0, from)),
        style::run(
            piece(content, from, to),
            style::bare().spec_on(Color::Rgb(80, 30, 30)).spec_fg(Color::White),
        ),
        style::raw(piece(content, to, n)),
    ]
}

pub open spec fn suggestion_style(selected: bool) -> Style {
    if selected {
        Style::colored(Color::LightCyan).spec_bold()
    } else {
        style::bare()
    }
}

/// The row of suggestion `i`.
pub open spec fn suggestion_row(v: WizardView, i: int) -> Seq<SpanView> {
    let here = suggestion_style(i == v.selected);
    seq![
        style::run(
            if i == v.selected {
                "\u{2192} "@
            } else {
                "  "@
            },
            here,
        ),
        style::run(words::decimal((i + 1) as nat) + ". "@, Style::colored(Color::DarkGray)),
        style::run(v.suggestions[i], here),
    ]
}

/// The suggestions, or a note that there is none; below them an error.
pub open spec fn suggestion_rows(v: WizardView) -> Seq<Seq<SpanView>> {
    let listed = if v.suggestions.len() == 0 {
        seq![seq![style::run("  (no suggestions)"@, Style::colored(Color::DarkGray))]]
    } else {
        Seq::new(v.suggestions.len(), |i: int| suggestion_row(v, i))
    };
    match v.error {
        Some(e) => listed.push(seq![style::run(e, Style::colored(Color::Red))]),
        None => listed,
    }
}

/// The number of the current word, and how many there are.
pub open spec fn wizard_title(v: WizardView) -> Seq<char> {
    let n = one_more(v.processed);
    " spell \u{b7} "@ + words::decimal(n as nat) + " of "@ + words::decimal(
        (if v.total > n {
            v.total
        } else {
            n
        }) as nat,
    ) + " "@
}

fn mark_word(editor: &Editor, span: Span) -> (r: StyledLine)
    requires
        editor.wf(),
        span.lies_in(editor@.bytes),
    ensures
        r@ == context_line(editor@.bytes, (span.start as int, span.end as int)),
{
    let ghost b = editor@.bytes;
    let (l, at) = positions::locate(&editor.buffer, span.start);
    let content = positions::content_of_line(&editor.buffer, l);
    let n = text::byte_len(content);
    let from = if at < n {
        at
    } else {
        n
    };
    let len = span.end - span.start;
    let to = if at < n && len < n - at {
        at + len
    } else {
        n
    };
    proof {
        encode_utf8_valid_utf8(editor.buffer@);
        wrap::lemma_line_valid(b, l as int);
        text::lemma_boundary_ends(content@);
        let c = encode_utf8(content@);
        let full = wrap::line_of(b, l as int);
        if from < n {
            positions::lemma_line_boundary(b, l as int, from as int);
            assert(c[from as int] == full[from as int]);
        }
        if to < n {
            positions::lemma_line_boundary(b, l as int, to as int);
            assert(c[to as int] == full[to as int]);
        }
        assert(to == capped(span.end - spans::line_starts(b)[l as int], n as int));
    }
    let before = text::slice(content, 0, from);
    let word = text::slice(content, from, to);
    let after = text::slice(content, to, n);
    proof {
        encode_utf8_decode_utf8(before@);
        encode_utf8_decode_utf8(word@);
        encode_utf8_decode_utf8(after@);
    }
    let mut line = StyledLine::new();
    line.push("Context: ", Style::fg(Color::DarkGray));
    line.push_raw(before);
    line.push(word, Style::plain().with_bg(Color::Rgb(80, 30, 30)).with_fg(Color::White));
    line.push_raw(after);
    proof {
        assert(line@ =~= context_line(b, (span.start as int, span.end as int)));
    }
    line
}

impl SpellWizardState {
    fn row(&self, i: usize) -> (r: StyledLine)
        requires
            i < self.suggestions.len(),
            self.suggestions.len() <= 5,
        ensures
            r@ == suggestion_row(self@, i as int),
    {
        let selected = i == self.selected;
        let here = if selected {
            Style::fg(Color::LightCyan).with_bold()
        } else {
            Style::plain()
        };
        let mut number = words::decimal_of(i + 1);
        number.append(". ");
        let mut line = StyledLine::new();
        line.push(
            if selected {
                "\u{2192} "
            } else {
                "  "
            },
            here,
        );
        line.push(number.as_str(), Style::fg(Color::DarkGray));
        line.push(self.suggestions[i].as_str(), here);
        proof {
            assert(self@.suggestions[i as int] == self.suggestions@[i as int]@);
            assert(line@ =~= suggestion_row(self@, i as int));
        }
        line
    }

    fn rows(&self) -> (r: Vec<StyledLine>)
        requires
            self.suggestions.len() <= 5,
        ensures
            style::lines_view(r@) == suggestion_rows(self@),
    {
        let mut rows: Vec<StyledLine> = Vec::new();
        let ghost listed = Seq::new(
            self@.suggestions.len(),
            |i: int| suggestion_row(self@, i),
        );
        if self.suggestions.len() == 0 {
            rows.push(StyledLine::of("  (no suggestions)", Style::fg(Color::DarkGray)));
        }
        let mut i: usize = 0;
        while i < self.suggestions.len()
            invariant
                i <= self.suggestions.len() <= 5,
                self.suggestions.len() > 0 ==> rows.len() == i,
                self.suggestions.len() == 0 ==> rows.len() == 1 && rows@[0]@ == seq![
                    style::run("  (no suggestions)"@, Style::colored(Color::DarkGray)),
                ],
                forall|k: int| 0 <= k < i ==> (#[trigger] rows@[k])@ == suggestion_row(self@, k),
            decreases self.suggestions.len() - i,
        {
            let row = self.row(i);
            rows.push(row);
            i += 1;
        }
        if let Some(e) = &self.error {
            rows.push(StyledLine::of(e.as_str(), Style::fg(Color::Red)));
        }
        proof {
            assert(style::lines_view(rows@) =~= suggestion_rows(self@));
        }
        rows
    }

    /// What the wizard shows.
    pub fn screen(&self, editor: &Editor) -> (r: WizardScreen)
        requires
            editor.wf(),
            self.wf(editor@),
        ensures
            r.title@ == wizard_title(self@),
            r.word_line@ == seq![
                style::run("Misspelled: "@, Style::colored(Color::Yellow)),
                style::run(self@.word, Style::colored(Color::Red).spec_bold()),
            ],
            r.context@ == context_line(editor@.bytes, self@.span),
            style::lines_view(r.rows@) == suggestion_rows(self@),
            r.footer@
                == " \u{2191}\u{2193} pick \u{b7} Enter/1-5 fix \u{b7} s skip word \u{b7} a add to dict \u{b7} Esc quit "@,
    {
        let n = bump(self.processed);
        let mut title = String::from_str(" spell \u{b7} ");
        words::push_decimal(&mut title, n);
        title.append(" of ");
        words::push_decimal(
            &mut title,
            if self.initial_total > n {
                self.initial_total
            } else {
                n
            },
        );
        title.append(" ");
        let mut word_line = StyledLine::new();
        word_line.push("Misspelled: ", Style::fg(Color::Yellow));
        word_line.push(self.current.word.as_str(), Style::fg(Color::Red).with_bold());
        proof {
            assert(word_line@ =~= seq![
                style::run("Misspelled: "@, Style::colored(Color::Yellow)),
                style::run(self@.word, Style::colored(Color::Red).spec_bold()),
            ]);
        }
        WizardScreen {
            title,
            word_line,
            context: mark_word(editor, self.current.span),
            rows: self.rows(),
            footer: " \u{2191}\u{2193} pick \u{b7} Enter/1-5 fix \u{b7} s skip word \u{b7} a add to dict \u{b7} Esc quit ",
        }
    }
}

// ---------------------------------------------------------------------------
// Words lie in the range
// ---------------------------------------------------------------------------

/// Every word to be checked lies in the range.
pub open spec fn words_within(ws: Seq<(int, int)>, from: int, to: int) -> bool {
    forall|k: int| 0 <= k < ws.len() ==> from <= (#[trigger] ws[k]).0 <= ws[k].1 <= to
}

proof fn lemma_prose_words_within(s: Seq<char>, i: int, in_code: bool)
    requires
        0 <= i,
    ensures
        words_within(spell::prose_words(s, i, in_code), 0, s.len() as int),
    decreases s.len() - i,
{
    if i < s.len() {
        if s[i] == '`' {
            lemma_prose_words_within(s, i + 1, !in_code);
        } else if in_code {
            lemma_prose_words_within(s, i + 1, in_code);
        } else {
            spell::lemma_skips(s, i);
            if spell::is_url(s, i) {
                lemma_prose_words_within(s, spell::next_white(s, i), in_code);
            } else if spell::is_tag(s, i) {
                lemma_prose_words_within(s, highlight::tag_stop(s, i + 1), in_code);
            } else if spell::is_todo_keyword(s, i) || spell::is_checkbox(s, i) {
                lemma_prose_words_within(s, i + 5, in_code);
            } else if !unicode::letter(s[i]) {
                lemma_prose_words_within(s, i + 1, in_code);
            } else {
                let j = spell::token_end(s, i);
                lemma_prose_words_within(s, j, in_code);
                spell::lemma_trim_apostrophes(s, i, j);
                let rest = spell::prose_words(s, j, in_code);
                let all = spell::prose_words(s, i, in_code);
                if spell::checked_word(s, i, j) {
                    assert forall|k: int| 0 <= k < all.len() implies 0 <= (#[trigger] all[k]).0
                        <= all[k].1 <= s.len() by {
                        if k > 0 {
                            assert(all[k] == rest[k - 1]);
                        }
                    }
                }
            }
        }
    }
}

proof fn lemma_without_returns(s: Seq<char>)
    ensures
        spell::without_returns(s).len() <= s.len(),
        spell::without_returns(s) == s.subrange(0, spell::without_returns(s).len() as int),
    decreases s.len(),
{
    if s.len() > 0 && s.last() == '\r' {
        lemma_without_returns(s.drop_last());
        let r = spell::without_returns(s.drop_last());
        assert(s.drop_last().subrange(0, r.len() as int) =~= s.subrange(0, r.len() as int));
    } else {
        assert(s =~= s.subrange(0, s.len() as int));
    }
}

proof fn lemma_words_in_within(b: Seq<u8>, pos: int, end: int, block: bool)
    requires
        valid_utf8(b),
        0 <= pos,
        end <= b.len(),
        pos <= end ==> text::on_boundary(b, pos),
        text::on_boundary(b, end),
    ensures
        words_within(spell::words_in(b, pos, end, block), pos, end),
    decreases end + 1 - pos,
{
    if pos < end {
        spell::lemma_line_break(b, pos, end);
        let stop = spell::line_break(b, pos, end);
        text::lemma_find_first(b, pos, end, 10u8);
        if stop < end {
            text::lemma_after_ascii(b, stop);
        }
        let line = decode_utf8(b.subrange(pos, stop));
        let content = spell::without_returns(line);
        decode_utf8_encode_utf8(b);
        text::lemma_piece_decodes(decode_utf8(b), pos, stop);
        lemma_words_in_within(b, stop + 1, end, block);
        lemma_words_in_within(b, stop + 1, end, !block);
        if !(spell::fence_text(content) || block || text::begins_with(content, "==="@)) {
            lemma_prose_words_within(content, 0, false);
            lemma_without_returns(line);
            let ws = spell::prose_words(content, 0, false);
            let here = spell::placed(content, pos, ws);
            let rest = spell::words_in(b, stop + 1, end, block);
            let all = here + rest;
            let n = content.len() as int;
            text::lemma_byte_subrange(line, 0, n);
            assert forall|k: int| 0 <= k < all.len() implies pos <= (#[trigger] all[k]).0
                <= all[k].1 <= end by {
                if k < here.len() {
                    assert(all[k] == here[k]);
                    assert(0 <= ws[k].0 <= ws[k].1 <= n);
                    text::lemma_byte_subrange(content, ws[k].0, ws[k].1);
                    text::lemma_byte_offset_monotone(content, ws[k].1, n);
                    text::lemma_byte_offset_ends(content);
                    text::lemma_byte_offset_ends(line);
                    text::lemma_byte_offset_monotone(line, n, line.len() as int);
                } else {
                    assert(all[k] == rest[k - here.len()]);
                }
            }
        }
    }
}

proof fn lemma_misspelled_from_in(
    b: Seq<u8>,
    e: EngineView,
    skipped: Set<Seq<char>>,
    ws: Seq<(int, int)>,
    i: int,
)
    requires
        0 <= i,
    ensures
        misspelled_from(b, e, skipped, ws, i) matches Some(w) ==> exists|k: int|
            0 <= k < ws.len() && #[trigger] ws[k] == w,
    decreases ws.len() - i,
{
    if i < ws.len() {
        lemma_misspelled_from_in(b, e, skipped, ws, i + 1);
        assert(ws[i] == ws[i]);
    }
}

/// The next misspelling lies in the range that is checked.
pub proof fn lemma_next_bad_in_range(
    b: Seq<u8>,
    e: EngineView,
    skipped: Set<Seq<char>>,
    from: int,
    to: int,
)
    requires
        valid_utf8(b),
        0 <= from,
        can_check(b, from, to),
    ensures
        next_bad(b, e, skipped, from, to) matches Some(w) ==> from <= w.0 <= w.1 <= to && w.1
            <= b.len(),
{
    let ws = spell::words_to_check(b, from, to);
    let end = if to < b.len() {
        to
    } else {
        b.len() as int
    };
    lemma_misspelled_from_in(b, e, skipped, ws, 0);
    if from < end {
        lemma_words_in_within(b, from, end, spell::in_block(b, positions::line_at(b, from)));
    }
}

/// Every word that is checked lies in the range that was asked for.
pub proof fn law_words_lie_in_range(b: Seq<u8>, from: int, to: int)
    requires
        valid_utf8(b),
        0 <= from < to <= b.len(),
        text::on_boundary(b, from),
        text::on_boundary(b, to),
    ensures
        words_within(spell::words_to_check(b, from, to), from, to),
{
    lemma_words_in_within(b, from, to, spell::in_block(b, positions::line_at(b, from)));
}

/// A fix is one undo entry: an undo brings text and cursor back.
pub proof fn law_fix_is_one_undo(v: WizardView, e: EditorView, suggestion: Seq<char>, off: int)
    requires
        editing::state_ok(e),
    ensures
        editor_laws::brings_back(shown_at(fixed(v, e, suggestion), off), e),
        editor_laws::brings_back(fixed(v, e, suggestion), e),
{
    editor_laws::law_one_undo(e, shown_at(fixed(v, e, suggestion), off));
    editor_laws::law_one_undo(e, fixed(v, e, suggestion));
}

} // verus!
