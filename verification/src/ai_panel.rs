//! The AI panel: prompt, candidate, and what accepting one does.

use vstd::prelude::*;
use vstd::utf8::*;

use crate::ai;
use crate::ai::AiError;
use crate::current_note;
use crate::editing;
use crate::editing::EditorView;
use crate::editor::Editor;
use crate::editor_laws;
use crate::filter_panel;
use crate::input::{InputView, TextInput};
use crate::keys::{Key, KeyCode};
use crate::spans::Span;
use crate::style;
use crate::style::{Color, Style, StyledLine};
use crate::words;

verus! {

pub struct AiPanelState {
    pub prompt: TextInput,
    pub candidate: Option<String>,
    pub candidate_scroll: usize,
    pub loading: bool,
    pub error: Option<String>,
    /// Original note body text — used for Tab toggle and accept-time replacement.
    pub original: String,
    /// Byte range in the file buffer that this panel will replace on accept.
    pub body_range: Span,
    pub showing_original: bool,
    pub spinner_tick: u8,
}

#[verifier::ext_equal]
pub struct AiView {
    pub prompt: InputView,
    pub candidate: Option<Seq<char>>,
    pub scroll: int,
    pub loading: bool,
    pub error: Option<Seq<char>>,
    pub original: Seq<char>,
    pub range: Span,
    pub showing_original: bool,
    pub tick: int,
}

impl View for AiPanelState {
    type V = AiView;

    open spec fn view(&self) -> AiView {
        AiView {
            prompt: self.prompt@,
            candidate: filter_panel::text_view(self.candidate),
            scroll: self.candidate_scroll as int,
            loading: self.loading,
            error: filter_panel::text_view(self.error),
            original: self.original@,
            range: self.body_range,
            showing_original: self.showing_original,
            tick: self.spinner_tick as int,
        }
    }
}

/// What a key asks for beyond the panel itself.
#[derive(Debug, Clone, Copy, PartialEq, Eq, Structural)]
pub enum AiOutcome {
    Stay,
    /// Close the panel.
    Close,
    /// Send the prompt.
    Submit,
    /// Replace the text by the candidate.
    Accept,
}

impl AiView {
    /// The panel just opened on a text.
    pub open spec fn opened(prompt: Seq<char>, original: Seq<char>, range: Span) -> AiView {
        AiView {
            prompt: InputView { chars: prompt, at: prompt.len() as int },
            candidate: None,
            scroll: 0,
            loading: false,
            error: None,
            original,
            range,
            showing_original: false,
            tick: 0,
        }
    }

    /// Panel and request of a key.
    pub open spec fn after(self, key: Key) -> (AiView, AiOutcome) {
        match key.code {
            KeyCode::Esc => if self.loading {
                (AiView { loading: false, ..self }, AiOutcome::Stay)
            } else {
                (self, AiOutcome::Close)
            },
            KeyCode::Enter => if key.mods.only_ctrl() {
                (self, AiOutcome::Accept)
            } else {
                (self, AiOutcome::Submit)
            },
            KeyCode::Tab => (
                AiView {
                    showing_original: if self.candidate is Some {
                        !self.showing_original
                    } else {
                        self.showing_original
                    },
                    ..self
                },
                AiOutcome::Stay,
            ),
            KeyCode::Backspace => (
                AiView { prompt: self.prompt.backspaced(), ..self },
                AiOutcome::Stay,
            ),
            KeyCode::Left => (AiView { prompt: self.prompt.moved_left(), ..self }, AiOutcome::Stay),
            KeyCode::Right => (
                AiView { prompt: self.prompt.moved_right(), ..self },
                AiOutcome::Stay,
            ),
            KeyCode::Home => (AiView { prompt: self.prompt.moved_home(), ..self }, AiOutcome::Stay),
            KeyCode::End => (AiView { prompt: self.prompt.moved_end(), ..self }, AiOutcome::Stay),
            KeyCode::Up => (
                AiView {
                    scroll: if self.scroll > 0 {
                        self.scroll - 1
                    } else {
                        0
                    },
                    ..self
                },
                AiOutcome::Stay,
            ),
            KeyCode::Down => (
                AiView {
                    scroll: if self.scroll < usize::MAX {
                        self.scroll + 1
                    } else {
                        self.scroll
                    },
                    ..self
                },
                AiOutcome::Stay,
            ),
            KeyCode::Char(c) => if key.mods.ctrl || key.mods.alt {
                (self, AiOutcome::Stay)
            } else {
                (AiView { prompt: self.prompt.inserted(seq![c]), ..self }, AiOutcome::Stay)
            },
            _ => (self, AiOutcome::Stay),
        }
    }

    /// A request is under way.
    pub open spec fn waiting(self) -> AiView {
        AiView {
            loading: true,
            error: None,
            candidate: None,
            showing_original: false,
            tick: 0,
            scroll: 0,
            ..self
        }
    }

    /// The reply to a request is in; one that comes after a cancel is dropped.
    pub open spec fn replied(self, reply: Result<Seq<char>, Seq<char>>) -> AiView {
        if !self.loading {
            self
        } else {
            match reply {
                Ok(t) => AiView { loading: false, candidate: Some(t), error: None, ..self },
                Err(e) => AiView { loading: false, error: Some(e), ..self },
            }
        }
    }
}

/// What Enter leads to.
pub enum Submission {
    /// Nothing is sent: a request is under way, or the prompt is blank.
    Refused,
    /// Send this prompt about this text.
    Send { prompt: String, input: String },
}

pub open spec fn reply_view(r: Result<String, AiError>) -> Result<Seq<char>, Seq<char>> {
    match r {
        Ok(s) => Ok(s@),
        Err(e) => Err(ai::error_text(e)),
    }
}

/// The editor with the text of a range replaced: one undo entry, and the cursor at
/// its start. A range that is not in the text any more has nothing to replace.
pub open spec fn accepted(e: EditorView, range: Span, text: Seq<char>) -> EditorView {
    if range.lies_in(e.bytes) {
        editing::jumped(
            editing::edited(editing::entered(e), range.start as int, range.end as int, text),
            range.start as int,
        )
    } else {
        e
    }
}

impl AiPanelState {
    /// Open the panel on the selection or the current note's body, with the
    /// prompt that was used last.
    pub fn open(editor: &Editor, last_prompt: Option<String>) -> (r: Self)
        requires
            editor.wf(),
        ensures
            r.prompt.wf(),
            r.body_range.lies_in(editor@.bytes),
            encode_utf8(r.original@) == r.body_range.of(editor@.bytes),
            (r.body_range.start as int, r.body_range.end as int) == current_note::target_of(
                editor@,
            ),
            r@ == AiView::opened(
                match filter_panel::text_view(last_prompt) {
                    Some(p) => p,
                    None => Seq::empty(),
                },
                r.original@,
                r.body_range,
            ),
    {
        let body_range = current_note::current_target(editor);
        let original = editor.buffer.span_text(body_range).to_owned();
        let prompt = match last_prompt {
            Some(p) => p,
            None => String::new(),
        };
        proof {
            assert(last_prompt is None ==> prompt@ =~= Seq::<char>::empty());
        }
        AiPanelState {
            prompt: TextInput::new(prompt),
            candidate: None,
            candidate_scroll: 0,
            loading: false,
            error: None,
            original,
            body_range,
            showing_original: false,
            spinner_tick: 0,
        }
    }

    pub fn handle_key(&mut self, key: Key) -> (r: AiOutcome)
        requires
            old(self).prompt.wf(),
        ensures
            final(self).prompt.wf(),
            (final(self)@, r) == old(self)@.after(key),
    {
        match key.code {
            KeyCode::Esc => {
                if self.loading {
                    self.loading = false;
                    return AiOutcome::Stay;
                }
                return AiOutcome::Close;
            },
            KeyCode::Enter => {
                if key.mods.is_only_ctrl() {
                    return AiOutcome::Accept;
                }
                return AiOutcome::Submit;
            },
            KeyCode::Tab => {
                if self.candidate.is_some() {
                    self.showing_original = !self.showing_original;
                }
            },
            KeyCode::Backspace => {
                let _had = self.prompt.backspace();
            },
            KeyCode::Left => {
                self.prompt.left();
            },
            KeyCode::Right => {
                self.prompt.right();
            },
            KeyCode::Home => {
                self.prompt.home();
            },
            KeyCode::End => {
                self.prompt.end();
            },
            KeyCode::Up => {
                if self.candidate_scroll > 0 {
                    self.candidate_scroll = self.candidate_scroll - 1;
                }
            },
            KeyCode::Down => {
                if self.candidate_scroll < usize::MAX {
                    self.candidate_scroll = self.candidate_scroll + 1;
                }
            },
            KeyCode::Char(c) => {
                if !(key.mods.ctrl || key.mods.alt) {
                    self.prompt.insert_char(c);
                }
            },
            _ => {},
        }
        AiOutcome::Stay
    }

    /// Enter: what is sent. A blank prompt is an error.
    pub fn submit(&mut self) -> (r: Submission)
        ensures
            final(self).prompt == old(self).prompt,
            final(self).body_range == old(self).body_range,
            final(self).original == old(self).original,
            old(self)@.loading ==> r is Refused && final(self)@ == old(self)@,
            !old(self)@.loading && words::trim(old(self)@.prompt.chars).len() == 0 ==> r is Refused
                && final(self)@ == (AiView { error: Some("empty prompt"@), ..old(self)@ }),
            !old(self)@.loading && words::trim(old(self)@.prompt.chars).len() > 0 ==> {
                &&& r matches Submission::Send { prompt, input }
                &&& prompt@ == old(self)@.prompt.chars
                &&& input@ == old(self)@.original
                &&& final(self)@ == old(self)@
            },
    {
        if self.loading {
            return Submission::Refused;
        }
        if words::trimmed(self.prompt.text.as_str()).is_empty() {
            self.error = Some("empty prompt".to_owned());
            return Submission::Refused;
        }
        Submission::Send {
            prompt: self.prompt.text.as_str().to_owned(),
            input: self.original.as_str().to_owned(),
        }
    }

    /// The provider could not be set up.
    pub fn refuse(&mut self, e: &AiError)
        ensures
            final(self).prompt == old(self).prompt,
            final(self).body_range == old(self).body_range,
            final(self).original == old(self).original,
            final(self)@ == (AiView { error: Some(ai::error_text(*e)), ..old(self)@ }),
    {
        self.error = Some(e.message());
    }

    /// The request is under way.
    pub fn begin(&mut self)
        ensures
            final(self).prompt == old(self).prompt,
            final(self).body_range == old(self).body_range,
            final(self).original == old(self).original,
            final(self)@ == old(self)@.waiting(),
    {
        self.loading = true;
        self.error = None;
        self.candidate = None;
        self.showing_original = false;
        self.spinner_tick = 0;
        self.candidate_scroll = 0;
    }

    /// The reply is in.
    pub fn receive(&mut self, reply: Result<String, AiError>)
        ensures
            final(self).prompt == old(self).prompt,
            final(self).body_range == old(self).body_range,
            final(self).original == old(self).original,
            final(self)@ == old(self)@.replied(reply_view(reply)),
    {
        if !self.loading {
            return;
        }
        self.loading = false;
        match reply {
            Ok(t) => {
                self.candidate = Some(t);
                self.error = None;
            },
            Err(e) => {
                self.error = Some(e.message());
            },
        }
    }

    /// No reply yet: the spinner turns.
    pub fn spin(&mut self)
        ensures
            final(self).prompt == old(self).prompt,
            final(self).body_range == old(self).body_range,
            final(self).original == old(self).original,
            final(self)@ == (AiView {
                tick: if old(self)@.loading {
                    (old(self)@.tick + 1) % 256
                } else {
                    old(self)@.tick
                },
                ..old(self)@
            }),
    {
        if self.loading {
            self.spinner_tick =
            if self.spinner_tick < 255 {
                self.spinner_tick + 1
            } else {
                0
            };
        }
    }

    /// Accept the candidate: the editor's text is replaced. Returns `false` if
    /// there is nothing to accept.
    pub fn accept(&self, editor: &mut Editor) -> (r: bool)
        requires
            old(editor).wf(),
        ensures
            final(editor).wf(),
            r == (self@.candidate is Some && !self@.loading),
            final(editor)@ == if r {
                accepted(old(editor)@, self.body_range, self@.candidate->Some_0)
            } else {
                old(editor)@
            },
    {
        if self.loading {
            return false;
        }
        match &self.candidate {
            None => false,
            Some(t) => {
                if editor.has_span(self.body_range) {
                    editor.replace_range(self.body_range, t.as_str());
                }
                true
            },
        }
    }
}

// ---------------------------------------------------------------------------
// Screen
// ---------------------------------------------------------------------------

/// The text of the panel.
pub enum AiBody {
    Thinking(String),
    Error(String),
    Plain(String),
}

/// What the panel shows.
pub struct AiScreen {
    pub title: String,
    pub prompt_line: StyledLine,
    pub label: &'static str,
    pub body: AiBody,
    pub scroll: usize,
    pub footer: &'static str,
    /// Cells before the terminal cursor in the prompt; none while a request is
    /// under way.
    pub cursor_col: Option<usize>,
}

/// A frame of the spinner.
pub open spec fn spinner(tick: int) -> char {
    if tick % 4 == 0 {
        '\u{2502}'
    } else if tick % 4 == 1 {
        '\u{2571}'
    } else if tick % 4 == 2 {
        '\u{2500}'
    } else {
        '\u{2572}'
    }
}

pub fn spinner_frame(tick: u8) -> (r: char)
    ensures
        r == spinner(tick as int),
{
    if tick % 4 == 0 {
        '\u{2502}'
    } else if tick % 4 == 1 {
        '\u{2571}'
    } else if tick % 4 == 2 {
        '\u{2500}'
    } else {
        '\u{2572}'
    }
}

impl AiView {
    /// The candidate is what is shown.
    pub open spec fn shows_candidate(self) -> bool {
        self.candidate is Some && !self.showing_original
    }

    pub open spec fn label(self) -> Seq<char> {
        if self.loading {
            ""@
        } else if self.error is Some {
            "[error]"@
        } else if self.shows_candidate() {
            "[candidate]"@
        } else {
            "[original]"@
        }
    }

    pub open spec fn footer(self) -> Seq<char> {
        if self.loading {
            " Esc cancel "@
        } else if self.candidate is Some {
            if self.showing_original {
                " Enter regenerate \u{b7} Ctrl+Enter accept \u{b7} Tab show candidate \u{b7} Esc close "@
            } else {
                " Enter regenerate \u{b7} Ctrl+Enter accept \u{b7} Tab show original \u{b7} Esc close "@
            }
        } else {
            " Enter generate \u{b7} Esc close "@
        }
    }

    /// `body` is what the panel shows: the spinner, else the error, else the
    /// candidate or the original.
    pub open spec fn body_is(self, body: AiBody) -> bool {
        if self.loading {
            body matches AiBody::Thinking(s) && s@ == "  "@ + seq![spinner(self.tick)]
                + "  thinking\u{2026}"@
        } else if self.error is Some {
            body matches AiBody::Error(s) && s@ == self.error->Some_0
        } else if self.shows_candidate() {
            body matches AiBody::Plain(s) && s@ == self.candidate->Some_0
        } else {
            body matches AiBody::Plain(s) && s@ == self.original
        }
    }
}

impl AiPanelState {
    fn shown_body(&self) -> (r: AiBody)
        ensures
            self@.body_is(r),
    {
        if self.loading {
            let mut s = String::from_str("  ");
            words::push_char(&mut s, spinner_frame(self.spinner_tick));
            proof {
                assert(s@ =~= "  "@ + seq![spinner(self@.tick)]);
            }
            s.append("  thinking\u{2026}");
            return AiBody::Thinking(s);
        }
        if let Some(e) = &self.error {
            return AiBody::Error(e.as_str().to_owned());
        }
        if !self.showing_original {
            if let Some(c) = &self.candidate {
                return AiBody::Plain(c.as_str().to_owned());
            }
        }
        AiBody::Plain(self.original.as_str().to_owned())
    }

    /// What the panel shows.
    pub fn screen(&self, provider: &str, model: &str) -> (r: AiScreen)
        requires
            self.prompt.wf(),
        ensures
            r.title@ == " ai \u{b7} "@ + provider@ + " \u{b7} "@ + model@ + " "@,
            r.prompt_line@ == seq![
                style::run("Prompt: "@, Style::colored(Color::Yellow)),
                style::raw(self@.prompt.chars),
            ],
            r.label@ == self@.label(),
            self@.body_is(r.body),
            r.scroll == self@.scroll,
            r.footer@ == self@.footer(),
            match r.cursor_col {
                Some(c) => !self@.loading && c == if self.prompt.cursor <= usize::MAX - 8 {
                    self.prompt.cursor + 8
                } else {
                    usize::MAX as int
                },
                None => self@.loading,
            },
    {
        let mut title = String::from_str(" ai \u{b7} ");
        title.append(provider);
        title.append(" \u{b7} ");
        title.append(model);
        title.append(" ");
        let mut prompt_line = StyledLine::new();
        prompt_line.push("Prompt: ", Style::fg(Color::Yellow));
        prompt_line.push_raw(self.prompt.text.as_str());
        proof {
            assert(prompt_line@ =~= seq![
                style::run("Prompt: "@, Style::colored(Color::Yellow)),
                style::raw(self@.prompt.chars),
            ]);
        }
        let has_candidate = self.candidate.is_some();
        let label: &'static str = if self.loading {
            ""
        } else if self.error.is_some() {
            "[error]"
        } else if has_candidate && !self.showing_original {
            "[candidate]"
        } else {
            "[original]"
        };
        let footer: &'static str = if self.loading {
            " Esc cancel "
        } else if has_candidate {
            if self.showing_original {
                " Enter regenerate \u{b7} Ctrl+Enter accept \u{b7} Tab show candidate \u{b7} Esc close "
            } else {
                " Enter regenerate \u{b7} Ctrl+Enter accept \u{b7} Tab show original \u{b7} Esc close "
            }
        } else {
            " Enter generate \u{b7} Esc close "
        };
        let cursor_col = if self.loading {
            None
        } else if self.prompt.cursor <= usize::MAX - 8 {
            Some(self.prompt.cursor + 8)
        } else {
            Some(usize::MAX)
        };
        AiScreen {
            title,
            prompt_line,
            label,
            body: self.shown_body(),
            scroll: self.candidate_scroll,
            footer,
            cursor_col,
        }
    }
}

// ---------------------------------------------------------------------------
// Laws
// ---------------------------------------------------------------------------

/// Accepting a candidate is one undo entry: an undo brings text and cursor back.
pub proof fn law_accept_is_one_undo(e: EditorView, range: Span, text: Seq<char>)
    requires
        editing::state_ok(e),
        range.lies_in(e.bytes),
    ensures
        editor_laws::brings_back(accepted(e, range, text), e),
{
    editor_laws::law_one_undo(e, accepted(e, range, text));
}

/// A reply that comes after the request was cancelled changes nothing.
pub proof fn law_cancelled_reply_is_dropped(v: AiView, reply: Result<Seq<char>, Seq<char>>)
    requires
        v.loading,
    ensures
        ({
            let key = Key {
                code: KeyCode::Esc,
                mods: crate::keys::Modifiers { ctrl: false, alt: false, shift: false, meta: false },
            };
            v.after(key).0.replied(reply) == v.after(key).0
        }),
{
}

} // verus!
