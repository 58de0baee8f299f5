//! The help overlay: a table of shortcuts and commands.

use vstd::prelude::*;

use crate::keys::{Key, KeyCode};
use crate::layout;
use crate::layout::Panel;
use crate::style;
use crate::style::{Color, SpanView, Style, StyledLine};
use crate::words;

verus! {

// ---------------------------------------------------------------------------
// The table
// ---------------------------------------------------------------------------

/// A row of the help table.
#[derive(Clone, Copy)]
pub enum HelpRow {
    /// The names of the columns.
    Columns,
    /// The name of a section.
    Header(&'static str),
    /// Shortcut, command and description.
    Entry(&'static str, &'static str, &'static str),
    Blank,
}

/// Cells of the shortcut column.
pub const SHORTCUT_WIDTH: usize = 28;

/// Cells of the command column.
pub const COMMAND_WIDTH: usize = 14;

pub open spec fn file_rows() -> Seq<HelpRow> {
    seq![
        HelpRow::Header("File"),
        HelpRow::Entry("Ctrl+S", ":w", "Save"),
        HelpRow::Entry("", ":wq, :x", "Save and exit"),
        HelpRow::Entry("Ctrl+O", "", "Open file\u{2026}"),
        HelpRow::Entry("Ctrl+Q", ":q", "Quit (warns on unsaved)"),
        HelpRow::Entry("", ":q!", "Quit without saving"),
    ]
}

fn push_file_rows(out: &mut Vec<HelpRow>)
    ensures
        final(out)@ == old(out)@ + file_rows(),
{
    let ghost before = out@;
    out.push(HelpRow::Header("File"));
    out.push(HelpRow::Entry("Ctrl+S", ":w", "Save"));
    out.push(HelpRow::Entry("", ":wq, :x", "Save and exit"));
    out.push(HelpRow::Entry("Ctrl+O", "", "Open file\u{2026}"));
    out.push(HelpRow::Entry("Ctrl+Q", ":q", "Quit (warns on unsaved)"));
    out.push(HelpRow::Entry("", ":q!", "Quit without saving"));
    proof {
        assert(out@ =~= before + file_rows());
    }
}

pub open spec fn edit_rows() -> Seq<HelpRow> {
    seq![
        HelpRow::Header("Edit"),
        HelpRow::Entry("Ctrl+Z", "", "Undo"),
        HelpRow::Entry("Ctrl+Y", "", "Redo"),
        HelpRow::Entry("Ctrl+C", "", "Copy selection"),
        HelpRow::Entry("Ctrl+X", "", "Cut selection"),
        HelpRow::Entry("Ctrl+V", "", "Paste at cursor"),
        HelpRow::Entry("Shift+Arrow", "", "Extend selection (also Home/End/PgUp/Dn)"),
        HelpRow::Entry("Esc", "", "Clear selection / close overlay"),
    ]
}

fn push_edit_rows(out: &mut Vec<HelpRow>)
    ensures
        final(out)@ == old(out)@ + edit_rows(),
{
    let ghost before = out@;
    out.push(HelpRow::Header("Edit"));
    out.push(HelpRow::Entry("Ctrl+Z", "", "Undo"));
    out.push(HelpRow::Entry("Ctrl+Y", "", "Redo"));
    out.push(HelpRow::Entry("Ctrl+C", "", "Copy selection"));
    out.push(HelpRow::Entry("Ctrl+X", "", "Cut selection"));
    out.push(HelpRow::Entry("Ctrl+V", "", "Paste at cursor"));
    out.push(HelpRow::Entry("Shift+Arrow", "", "Extend selection (also Home/End/PgUp/Dn)"));
    out.push(HelpRow::Entry("Esc", "", "Clear selection / close overlay"));
    proof {
        assert(out@ =~= before + edit_rows());
    }
}

pub open spec fn navigate_rows() -> Seq<HelpRow> {
    seq![
        HelpRow::Header("Navigate"),
        HelpRow::Entry("Ctrl+J", "", "Next note (filter-aware)"),
        HelpRow::Entry("Ctrl+K", "", "Previous note (filter-aware)"),
        HelpRow::Entry("", ":goto N", "Jump to line N"),
        HelpRow::Entry("Mouse wheel", "", "Scroll viewport (cursor stays put)"),
        HelpRow::Entry("Enter on `===`", "", "Stamp date and start a new note"),
    ]
}

fn push_navigate_rows(out: &mut Vec<HelpRow>)
    ensures
        final(out)@ == old(out)@ + navigate_rows(),
{
    let ghost before = out@;
    out.push(HelpRow::Header("Navigate"));
    out.push(HelpRow::Entry("Ctrl+J", "", "Next note (filter-aware)"));
    out.push(HelpRow::Entry("Ctrl+K", "", "Previous note (filter-aware)"));
    out.push(HelpRow::Entry("", ":goto N", "Jump to line N"));
    out.push(HelpRow::Entry("Mouse wheel", "", "Scroll viewport (cursor stays put)"));
    out.push(HelpRow::Entry("Enter on `===`", "", "Stamp date and start a new note"));
    proof {
        assert(out@ =~= before + navigate_rows());
    }
}

pub open spec fn find_rows() -> Seq<HelpRow> {
    seq![
        HelpRow::Header("Find"),
        HelpRow::Entry("Ctrl+F", "", "Search overlay"),
        HelpRow::Entry("F3", "", "Search: next match"),
        HelpRow::Entry("Shift+F3", "", "Search: previous match"),
    ]
}

fn push_find_rows(out: &mut Vec<HelpRow>)
    ensures
        final(out)@ == old(out)@ + find_rows(),
{
    let ghost before = out@;
    out.push(HelpRow::Header("Find"));
    out.push(HelpRow::Entry("Ctrl+F", "", "Search overlay"));
    out.push(HelpRow::Entry("F3", "", "Search: next match"));
    out.push(HelpRow::Entry("Shift+F3", "", "Search: previous match"));
    proof {
        assert(out@ =~= before + find_rows());
    }
}

pub open spec fn filter_rows() -> Seq<HelpRow> {
    seq![
        HelpRow::Header("Filter"),
        HelpRow::Entry("Ctrl+P", ":filter", "Filter panel (live picker)"),
        HelpRow::Entry("F4", ":next", "Filter: next match"),
        HelpRow::Entry("Shift+F4", ":prev", "Filter: previous match"),
        HelpRow::Entry("", ":clear", "Clear active filter"),
    ]
}

fn push_filter_rows(out: &mut Vec<HelpRow>)
    ensures
        final(out)@ == old(out)@ + filter_rows(),
{
    let ghost before = out@;
    out.push(HelpRow::Header("Filter"));
    out.push(HelpRow::Entry("Ctrl+P", ":filter", "Filter panel (live picker)"));
    out.push(HelpRow::Entry("F4", ":next", "Filter: next match"));
    out.push(HelpRow::Entry("Shift+F4", ":prev", "Filter: previous match"));
    out.push(HelpRow::Entry("", ":clear", "Clear active filter"));
    proof {
        assert(out@ =~= before + filter_rows());
    }
}

pub open spec fn workflows_rows() -> Seq<HelpRow> {
    seq![
        HelpRow::Header("Workflows"),
        HelpRow::Entry("Ctrl+L", ":ai", "AI panel (Polish workflow)"),
        HelpRow::Entry("F7", ":spell", "Spell check"),
        HelpRow::Entry("F8", ":todo", "Todo overlay"),
    ]
}

fn push_workflows_rows(out: &mut Vec<HelpRow>)
    ensures
        final(out)@ == old(out)@ + workflows_rows(),
{
    let ghost before = out@;
    out.push(HelpRow::Header("Workflows"));
    out.push(HelpRow::Entry("Ctrl+L", ":ai", "AI panel (Polish workflow)"));
    out.push(HelpRow::Entry("F7", ":spell", "Spell check"));
    out.push(HelpRow::Entry("F8", ":todo", "Todo overlay"));
    proof {
        assert(out@ =~= before + workflows_rows());
    }
}

pub open spec fn sync_rows() -> Seq<HelpRow> {
    seq![
        HelpRow::Header("Sync"),
        HelpRow::Entry("", ":sync", "Manual pull+push (when in a git repo)"),
        HelpRow::Entry("", "", "Pull on open, push on save are automatic"),
        HelpRow::Entry("", "", "Status bar: \u{2713} idle \u{b7} \u{2191}N ahead \u{b7} \u{2193}\u{2026} pulling \u{b7} \u{2191}\u{2026} pushing"),
    ]
}

fn push_sync_rows(out: &mut Vec<HelpRow>)
    ensures
        final(out)@ == old(out)@ + sync_rows(),
{
    let ghost before = out@;
    out.push(HelpRow::Header("Sync"));
    out.push(HelpRow::Entry("", ":sync", "Manual pull+push (when in a git repo)"));
    out.push(HelpRow::Entry("", "", "Pull on open, push on save are automatic"));
    out.push(HelpRow::Entry("", "", "Status bar: \u{2713} idle \u{b7} \u{2191}N ahead \u{b7} \u{2193}\u{2026} pulling \u{b7} \u{2191}\u{2026} pushing"));
    proof {
        assert(out@ =~= before + sync_rows());
    }
}

pub open spec fn command_bar_rows() -> Seq<HelpRow> {
    seq![
        HelpRow::Header("Command bar"),
        HelpRow::Entry("Ctrl+; / F10", "", "Open command bar"),
        HelpRow::Entry("Tab", "", "Complete command verb"),
        HelpRow::Entry("Up / Down", "", "Browse session history"),
        HelpRow::Entry("F1", ":help", "Show this help"),
    ]
}

fn push_command_bar_rows(out: &mut Vec<HelpRow>)
    ensures
        final(out)@ == old(out)@ + command_bar_rows(),
{
    let ghost before = out@;
    out.push(HelpRow::Header("Command bar"));
    out.push(HelpRow::Entry("Ctrl+; / F10", "", "Open command bar"));
    out.push(HelpRow::Entry("Tab", "", "Complete command verb"));
    out.push(HelpRow::Entry("Up / Down", "", "Browse session history"));
    out.push(HelpRow::Entry("F1", ":help", "Show this help"));
    proof {
        assert(out@ =~= before + command_bar_rows());
    }
}

pub open spec fn operators_rows() -> Seq<HelpRow> {
    seq![
        HelpRow::Header("Filter query operators"),
        HelpRow::Entry("tag:foo", "", "Has tag `foo`"),
        HelpRow::Entry("tag:foo,bar", "", "Has tag foo OR bar (OR within comma)"),
        HelpRow::Entry("tag:foo tag:bar", "", "Has tag foo AND bar (AND across tokens)"),
        HelpRow::Entry("title:keyword", "", "Title contains `keyword`"),
        HelpRow::Entry("date:2026-05-12", "", "Note dated on this day"),
        HelpRow::Entry("date:2026-05", "", "Note dated in this month"),
        HelpRow::Entry("any other word", "", "Substring match in note body"),
    ]
}

fn push_operators_rows(out: &mut Vec<HelpRow>)
    ensures
        final(out)@ == old(out)@ + operators_rows(),
{
    let ghost before = out@;
    out.push(HelpRow::Header("Filter query operators"));
    out.push(HelpRow::Entry("tag:foo", "", "Has tag `foo`"));
    out.push(HelpRow::Entry("tag:foo,bar", "", "Has tag foo OR bar (OR within comma)"));
    out.push(HelpRow::Entry("tag:foo tag:bar", "", "Has tag foo AND bar (AND across tokens)"));
    out.push(HelpRow::Entry("title:keyword", "", "Title contains `keyword`"));
    out.push(HelpRow::Entry("date:2026-05-12", "", "Note dated on this day"));
    out.push(HelpRow::Entry("date:2026-05", "", "Note dated in this month"));
    out.push(HelpRow::Entry("any other word", "", "Substring match in note body"));
    proof {
        assert(out@ =~= before + operators_rows());
    }
}

/// The whole table.
pub open spec fn help_rows() -> Seq<HelpRow> {
    seq![HelpRow::Columns, HelpRow::Blank]
        + file_rows() + seq![HelpRow::Blank]
        + edit_rows() + seq![HelpRow::Blank]
        + navigate_rows() + seq![HelpRow::Blank]
        + find_rows() + seq![HelpRow::Blank]
        + filter_rows() + seq![HelpRow::Blank]
        + workflows_rows() + seq![HelpRow::Blank]
        + sync_rows() + seq![HelpRow::Blank]
        + command_bar_rows() + seq![HelpRow::Blank]
        + operators_rows()
}

fn push_blank(out: &mut Vec<HelpRow>)
    ensures
        final(out)@ == old(out)@ + seq![HelpRow::Blank],
{
    let ghost before = out@;
    out.push(HelpRow::Blank);
    proof {
        assert(out@ =~= before + seq![HelpRow::Blank]);
    }
}

/// Hard-coded help table. Single source of truth for the in-app help overlay.
pub fn help_table() -> (r: Vec<HelpRow>)
    ensures
        r@ == help_rows(),
{
    let mut out: Vec<HelpRow> = Vec::new();
    out.push(HelpRow::Columns);
    out.push(HelpRow::Blank);
    proof {
        assert(out@ =~= seq![HelpRow::Columns, HelpRow::Blank]);
    }
    push_file_rows(&mut out);
    push_blank(&mut out);
    push_edit_rows(&mut out);
    push_blank(&mut out);
    push_navigate_rows(&mut out);
    push_blank(&mut out);
    push_find_rows(&mut out);
    push_blank(&mut out);
    push_filter_rows(&mut out);
    push_blank(&mut out);
    push_workflows_rows(&mut out);
    push_blank(&mut out);
    push_sync_rows(&mut out);
    push_blank(&mut out);
    push_command_bar_rows(&mut out);
    push_blank(&mut out);
    push_operators_rows(&mut out);
    out
}

// ---------------------------------------------------------------------------
// Lines
// ---------------------------------------------------------------------------

pub open spec fn column_name_style() -> Style {
    Style::colored(Color::DarkGray).spec_bold()
}

/// A row of the table as it is shown: three columns, the first two padded.
pub open spec fn row_line(row: HelpRow) -> Seq<SpanView> {
    match row {
        HelpRow::Columns => seq![
            style::raw("  "@),
            style::run(words::pad_right("Shortcut"@, SHORTCUT_WIDTH as int), column_name_style()),
            style::run(words::pad_right("Command"@, COMMAND_WIDTH as int), column_name_style()),
            style::run("Description"@, column_name_style()),
        ],
        HelpRow::Header(s) => seq![style::run(s@, Style::colored(Color::Yellow).spec_bold())],
        HelpRow::Entry(shortcut, command, description) => seq![
            style::raw("  "@),
            style::run(
                words::pad_right(shortcut@, SHORTCUT_WIDTH as int),
                Style::colored(Color::Cyan),
            ),
            style::run(
                words::pad_right(command@, COMMAND_WIDTH as int),
                Style::colored(Color::LightCyan),
            ),
            style::raw(description@),
        ],
        HelpRow::Blank => seq![style::raw(""@)],
    }
}

fn help_line(row: HelpRow) -> (r: StyledLine)
    ensures
        r@ == row_line(row),
{
    let mut line = StyledLine::new();
    match row {
        HelpRow::Columns => {
            let st = Style::fg(Color::DarkGray).with_bold();
            line.push_raw("  ");
            line.push(words::padded_right("Shortcut", SHORTCUT_WIDTH).as_str(), st);
            line.push(words::padded_right("Command", COMMAND_WIDTH).as_str(), st);
            line.push("Description", st);
        },
        HelpRow::Header(s) => {
            line.push(s, Style::fg(Color::Yellow).with_bold());
        },
        HelpRow::Entry(shortcut, command, description) => {
            line.push_raw("  ");
            line.push(
                words::padded_right(shortcut, SHORTCUT_WIDTH).as_str(),
                Style::fg(Color::Cyan),
            );
            line.push(
                words::padded_right(command, COMMAND_WIDTH).as_str(),
                Style::fg(Color::LightCyan),
            );
            line.push_raw(description);
        },
        HelpRow::Blank => {
            line.push_raw("");
        },
    }
    proof {
        assert(line@ =~= row_line(row));
    }
    line
}

/// The help table as a 3-column list of lines: shortcut, command, description.
pub fn help_content() -> (r: Vec<StyledLine>)
    ensures
        r.len() == help_rows().len(),
        forall|i: int| 0 <= i < r.len() ==> (#[trigger] r@[i])@ == row_line(help_rows()[i]),
{
    let rows = help_table();
    let mut out: Vec<StyledLine> = Vec::new();
    let mut i: usize = 0;
    while i < rows.len()
        invariant
            i <= rows.len(),
            rows@ == help_rows(),
            out.len() == i,
            forall|k: int| 0 <= k < i ==> (#[trigger] out@[k])@ == row_line(help_rows()[k]),
        decreases rows.len() - i,
    {
        out.push(help_line(rows[i]));
        i += 1;
    }
    out
}

// ---------------------------------------------------------------------------
// Scrolling
// ---------------------------------------------------------------------------

/// How far the help can be scrolled, for a text area of `height` rows (one less
/// than the screen): as many lines as do not fit between the borders of the
/// panel and above its footer.
pub open spec fn max_scroll(height: int) -> int {
    let body = layout::panel_height(Panel::Help, height + 1) - 3;
    if help_rows().len() > body {
        help_rows().len() - body
    } else {
        0
    }
}

/// Number of lines of the help.
pub proof fn lemma_help_len()
    ensures
        help_rows().len() == 60,
{
}

/// Upper bound for the scroll offset: the number of content lines that fall
/// beyond the visible body area.
pub fn help_max_scroll(viewport_height: usize) -> (r: u16)
    ensures
        r == max_scroll(viewport_height as int),
{
    let total = help_table().len();
    proof {
        lemma_help_len();
    }
    let screen: u128 = viewport_height as u128 + 1;
    let panel: u128 = if screen * 2 / 3 >= 12 {
        screen * 2 / 3
    } else {
        12
    };
    let body: u128 = panel - 3;
    if total as u128 > body {
        (total as u128 - body) as u16
    } else {
        0
    }
}

/// The scroll offset after a key; `None` where the key closes the help.
pub open spec fn scrolled(scroll: int, most: int, key: Key) -> Option<int> {
    match key.code {
        KeyCode::Esc => None,
        KeyCode::F(n) => if n == 1 {
            None
        } else {
            Some(scroll)
        },
        KeyCode::Char(c) => if c == 'q' {
            None
        } else if c == 'j' {
            Some(down_by(scroll, most, 1))
        } else if c == 'k' {
            Some(up_by(scroll, 1))
        } else {
            Some(scroll)
        },
        KeyCode::Down => Some(down_by(scroll, most, 1)),
        KeyCode::Up => Some(up_by(scroll, 1)),
        KeyCode::PageDown => Some(down_by(scroll, most, 10)),
        KeyCode::PageUp => Some(up_by(scroll, 10)),
        KeyCode::Home => Some(0),
        KeyCode::End => Some(most),
        _ => Some(scroll),
    }
}

pub open spec fn down_by(scroll: int, most: int, n: int) -> int {
    if scroll + n <= most {
        scroll + n
    } else {
        most
    }
}

pub open spec fn up_by(scroll: int, n: int) -> int {
    if scroll > n {
        scroll - n
    } else {
        0
    }
}

fn down(scroll: u16, most: u16, n: u16) -> (r: u16)
    ensures
        r == down_by(scroll as int, most as int, n as int),
{
    if n <= most && scroll <= most - n {
        scroll + n
    } else {
        most
    }
}

fn up(scroll: u16, n: u16) -> (r: u16)
    ensures
        r == up_by(scroll as int, n as int),
{
    if scroll > n {
        scroll - n
    } else {
        0
    }
}

/// The scroll offset after a key while the help is open; `None` where the key
/// closes it.
pub fn handle_help_key(scroll: u16, max_scroll: u16, key: Key) -> (r: Option<u16>)
    ensures
        match (r, scrolled(scroll as int, max_scroll as int, key)) {
            (Some(a), Some(b)) => a == b,
            (None, None) => true,
            _ => false,
        },
{
    match key.code {
        KeyCode::Esc => None,
        KeyCode::F(n) => if n == 1 {
            None
        } else {
            Some(scroll)
        },
        KeyCode::Char(c) => if c == 'q' {
            None
        } else if c == 'j' {
            Some(down(scroll, max_scroll, 1))
        } else if c == 'k' {
            Some(up(scroll, 1))
        } else {
            Some(scroll)
        },
        KeyCode::Down => Some(down(scroll, max_scroll, 1)),
        KeyCode::Up => Some(up(scroll, 1)),
        KeyCode::PageDown => Some(down(scroll, max_scroll, 10)),
        KeyCode::PageUp => Some(up(scroll, 10)),
        KeyCode::Home => Some(0),
        KeyCode::End => Some(max_scroll),
        _ => Some(scroll),
    }
}

/// The scroll offset stays within what can be scrolled.
pub proof fn law_scroll_in_range(scroll: int, most: int, key: Key)
    requires
        0 <= scroll <= most,
    ensures
        scrolled(scroll, most, key) matches Some(s) ==> 0 <= s <= most,
{
}

} // verus!
