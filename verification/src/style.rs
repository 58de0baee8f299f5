//! Styled text: what is shown on screen, before any terminal is involved.

use vstd::prelude::*;

verus! {

/// A terminal colour.
#[derive(Debug, Clone, Copy, PartialEq, Eq, Structural)]
pub enum Color {
    Black,
    Red,
    Green,
    Yellow,
    Blue,
    Magenta,
    Cyan,
    Gray,
    DarkGray,
    LightRed,
    LightGreen,
    LightYellow,
    LightBlue,
    LightCyan,
    White,
    Indexed(u8),
    Rgb(u8, u8, u8),
}

/// Colours and text attributes.
#[derive(Debug, Clone, Copy, PartialEq, Eq, Structural)]
pub struct Style {
    pub fg: Option<Color>,
    pub bg: Option<Color>,
    pub bold: bool,
    pub dim: bool,
    pub italic: bool,
    pub underlined: bool,
    pub crossed_out: bool,
}

/// No colour and no attribute.
pub open spec fn bare() -> Style {
    Style {
        fg: None,
        bg: None,
        bold: false,
        dim: false,
        italic: false,
        underlined: false,
        crossed_out: false,
    }
}

impl Style {
    /// A foreground colour and nothing else.
    pub open spec fn colored(c: Color) -> Style {
        Style { fg: Some(c), ..bare() }
    }

    pub open spec fn spec_bold(self) -> Style {
        Style { bold: true, ..self }
    }

    pub open spec fn spec_dim(self) -> Style {
        Style { dim: true, ..self }
    }

    pub open spec fn spec_italic(self) -> Style {
        Style { italic: true, ..self }
    }

    pub open spec fn spec_on(self, c: Color) -> Style {
        Style { bg: Some(c), ..self }
    }

    pub open spec fn spec_fg(self, c: Color) -> Style {
        Style { fg: Some(c), ..self }
    }

    pub fn plain() -> (r: Style)
        ensures
            r == bare(),
    {
        Style {
            fg: None,
            bg: None,
            bold: false,
            dim: false,
            italic: false,
            underlined: false,
            crossed_out: false,
        }
    }

    pub fn fg(c: Color) -> (r: Style)
        ensures
            r == Style::colored(c),
    {
        Style {
            fg: Some(c),
            bg: None,
            bold: false,
            dim: false,
            italic: false,
            underlined: false,
            crossed_out: false,
        }
    }

    pub fn with_fg(self, c: Color) -> (r: Style)
        ensures
            r == self.spec_fg(c),
    {
        Style { fg: Some(c), ..self }
    }

    pub fn with_bold(self) -> (r: Style)
        ensures
            r == self.spec_bold(),
    {
        Style { bold: true, ..self }
    }

    pub fn with_dim(self) -> (r: Style)
        ensures
            r == self.spec_dim(),
    {
        Style { dim: true, ..self }
    }

    pub fn with_italic(self) -> (r: Style)
        ensures
            r == self.spec_italic(),
    {
        Style { italic: true, ..self }
    }

    pub fn with_underline(self) -> (r: Style)
        ensures
            r == (Style { underlined: true, ..self }),
    {
        Style { underlined: true, ..self }
    }

    pub fn with_strike(self) -> (r: Style)
        ensures
            r == (Style { crossed_out: true, ..self }),
    {
        Style { crossed_out: true, ..self }
    }

    pub fn with_bg(self, c: Color) -> (r: Style)
        ensures
            r == self.spec_on(c),
    {
        Style { bg: Some(c), ..self }
    }
}

/// A run of text in one style.
#[derive(Debug)]
pub struct StyledSpan {
    pub content: String,
    pub style: Style,
}

/// What a run of text shows.
pub struct SpanView {
    pub text: Seq<char>,
    pub style: Style,
}

impl View for StyledSpan {
    type V = SpanView;

    open spec fn view(&self) -> SpanView {
        SpanView { text: self.content@, style: self.style }
    }
}

/// One line of styled text.
#[derive(Debug)]
pub struct StyledLine {
    pub spans: Vec<StyledSpan>,
}

impl View for StyledLine {
    type V = Seq<SpanView>;

    open spec fn view(&self) -> Seq<SpanView> {
        self.spans@.map_values(|s: StyledSpan| s@)
    }
}

/// A run in the given style.
pub open spec fn run(text: Seq<char>, style: Style) -> SpanView {
    SpanView { text, style }
}

/// A run without style.
pub open spec fn raw(text: Seq<char>) -> SpanView {
    SpanView { text, style: bare() }
}

/// The spans of several lines.
pub open spec fn lines_view(v: Seq<StyledLine>) -> Seq<Seq<SpanView>> {
    v.map_values(|l: StyledLine| l@)
}

/// The text of a line, without its styles.
pub open spec fn text_of(line: Seq<SpanView>) -> Seq<char>
    decreases line.len(),
{
    if line.len() == 0 {
        Seq::empty()
    } else {
        text_of(line.drop_last()) + line.last().text
    }
}

pub proof fn lemma_text_of_concat(a: Seq<SpanView>, b: Seq<SpanView>)
    ensures
        text_of(a + b) == text_of(a) + text_of(b),
    decreases b.len(),
{
    if b.len() == 0 {
        assert(a + b =~= a);
        assert(text_of(a) + text_of(b) =~= text_of(a));
    } else {
        assert((a + b).drop_last() =~= a + b.drop_last());
        lemma_text_of_concat(a, b.drop_last());
        assert(text_of(a + b) =~= text_of(a) + text_of(b));
    }
}

pub proof fn lemma_text_of_one(s: SpanView)
    ensures
        text_of(seq![s]) == s.text,
{
    assert(seq![s].drop_last() =~= Seq::<SpanView>::empty());
    reveal_with_fuel(text_of, 2);
    assert(text_of(seq![s]) =~= s.text);
}

impl StyledLine {
    pub fn new() -> (r: Self)
        ensures
            r@ == Seq::<SpanView>::empty(),
    {
        let r = StyledLine { spans: Vec::new() };
        proof {
            assert(r@ =~= Seq::<SpanView>::empty());
        }
        r
    }

    /// Adds a run in the given style.
    pub fn push(&mut self, content: &str, style: Style)
        ensures
            final(self)@ == old(self)@.push(run(content@, style)),
    {
        let ghost before = self@;
        self.spans.push(StyledSpan { content: content.to_owned(), style });
        proof {
            assert(self@ =~= before.push(run(content@, style)));
        }
    }

    /// Adds a run without style.
    pub fn push_raw(&mut self, content: &str)
        ensures
            final(self)@ == old(self)@.push(raw(content@)),
    {
        self.push(content, Style::plain());
    }

    /// Adds the runs of another line.
    pub fn extend(&mut self, other: StyledLine)
        ensures
            final(self)@ == old(self)@ + other@,
    {
        let ghost start = self@;
        let ghost theirs = other@;
        let mut i: usize = 0;
        proof {
            assert(start + theirs.subrange(0, 0) =~= start);
        }
        while i < other.spans.len()
            invariant
                i <= other.spans.len(),
                theirs == other@,
                self@ == start + theirs.subrange(0, i as int),
            decreases other.spans.len() - i,
        {
            self.push(other.spans[i].content.as_str(), other.spans[i].style);
            i += 1;
            proof {
                assert(theirs[i - 1] == other.spans@[i - 1]@);
                assert(self@ =~= start + theirs.subrange(0, i as int));
            }
        }
        proof {
            assert(theirs.subrange(0, i as int) =~= theirs);
        }
    }

    /// A line of one run.
    pub fn of(content: &str, style: Style) -> (r: Self)
        ensures
            r@ == seq![run(content@, style)],
    {
        let mut r = StyledLine::new();
        r.push(content, style);
        proof {
            assert(r@ =~= seq![run(content@, style)]);
        }
        r
    }

    /// The text of the line, without its styles.
    pub fn plain_text(&self) -> (r: String)
        ensures
            r@ == text_of(self@),
    {
        let mut out = String::new();
        let mut i: usize = 0;
        while i < self.spans.len()
            invariant
                i <= self.spans.len(),
                out@ == text_of(self@.subrange(0, i as int)),
            decreases self.spans.len() - i,
        {
            proof {
                assert(self@.subrange(0, i + 1).drop_last() =~= self@.subrange(0, i as int));
            }
            out.append(self.spans[i].content.as_str());
            i += 1;
        }
        proof {
            assert(self@.subrange(0, i as int) =~= self@);
        }
        out
    }
}

} // verus!
