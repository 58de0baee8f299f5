//! The status bar, and the texts of the dialogs.

use vstd::prelude::*;
use vstd::utf8::*;

use crate::ai_panel;
use crate::app::App;
use crate::app_rules::AppView;
use crate::editing;
use crate::mode::{ConflictKind, DownloadView, Mode, ModeView, SpellDownloadState};
use crate::search_mode::{SearchState, SearchView};
use crate::style;
use crate::style::{Color, Style};
use crate::sync;
use crate::text;
use crate::words;

verus! {

// ---------------------------------------------------------------------------
// Status bar
// ---------------------------------------------------------------------------

/// What the status bar shows.
pub struct StatusBar {
    pub text: String,
    pub style: Style,
    /// Cells before the terminal cursor, where the bar is an input.
    pub cursor_col: Option<usize>,
}

pub open spec fn bar_style(background: Color) -> Style {
    style::bare().spec_on(background).spec_fg(Color::White)
}

/// How many matches a search has, and which is in focus.
pub open spec fn search_count(s: SearchView) -> Seq<char> {
    if s.matches.len() > 0 {
        "  "@ + words::decimal((s.current + 1) as nat) + "/"@ + words::decimal(s.matches.len())
    } else if s.query.len() > 0 {
        " (no matches)"@
    } else {
        ""@
    }
}

pub open spec fn optional(head: Seq<char>, s: Option<Seq<char>>, tail: Seq<char>) -> Seq<char> {
    match s {
        Some(t) => head + t + tail,
        None => ""@,
    }
}

/// File, position, size, filter and message.
pub open spec fn position_text(v: AppView, name: Seq<char>) -> Seq<char> {
    " "@ + name + (if v.editor.dirty {
        " [+]"@
    } else {
        ""@
    }) + sync::indicator(v.sync) + "   Ln "@ + words::decimal((v.editor.line + 1) as nat) + ", Col "@
        + words::decimal((editing::line_column(v.editor) + 1) as nat) + "   "@ + words::decimal(
        editing::line_count(v.editor) as nat,
    ) + " lines"@ + optional("  \u{2502}  [filter: "@, v.filter, "]"@) + optional(
        "  \u{2502}  "@,
        v.status,
        ""@,
    )
}

/// What the command bar shows: the input, with a hint while it is empty.
pub open spec fn bar_text(input: Seq<char>) -> Seq<char> {
    ":"@ + input + if input.len() == 0 {
        "   type :help for shortcuts \u{b7} Tab to complete"@
    } else {
        ""@
    }
}

pub open spec fn status_text(v: AppView, name: Seq<char>) -> Seq<char> {
    match v.mode {
        ModeView::OpenPrompt(i) => " Open file: "@ + i,
        ModeView::CommandBar(s) => bar_text(s.input),
        ModeView::Search(s) => " Find: "@ + s.query + search_count(s),
        _ => position_text(v, name),
    }
}

/// Red where a search finds nothing, blue where it does.
pub open spec fn status_color(v: AppView) -> Color {
    match v.mode {
        ModeView::Search(s) => if s.query.len() > 0 && s.matches.len() == 0 {
            Color::Red
        } else {
            Color::Blue
        },
        _ => Color::DarkGray,
    }
}

/// Cells before the cursor of an input of `n` bytes behind its prompt, in a bar of
/// `width` cells.
pub open spec fn within_bar(n: int, width: int) -> int {
    if n < width {
        n
    } else if width > 0 {
        width - 1
    } else {
        0
    }
}

pub open spec fn status_cursor(v: AppView, width: int) -> Option<int> {
    match v.mode {
        ModeView::OpenPrompt(i) => Some(within_bar(12 + encode_utf8(i).len() as int, width)),
        ModeView::CommandBar(s) => Some(within_bar(1 + encode_utf8(s.input).len() as int, width)),
        _ => None,
    }
}

fn clamp(head: usize, n: usize, width: usize) -> (r: usize)
    ensures
        r == within_bar(head + n, width as int),
{
    if head < width && n < width - head {
        head + n
    } else if width > 0 {
        width - 1
    } else {
        0
    }
}

fn count_matches(s: &SearchState) -> (r: String)
    requires
        s@.matches.len() > 0 ==> s@.current < s@.matches.len(),
    ensures
        r@ == search_count(s@),
{
    if s.matches.len() > 0 {
        let mut out = String::from_str("  ");
        words::push_decimal(&mut out, s.current + 1);
        out.append("/");
        words::push_decimal(&mut out, s.matches.len());
        out
    } else if !s.query.as_str().is_empty() {
        " (no matches)".to_owned()
    } else {
        "".to_owned()
    }
}

/// The number after `n`, in decimal.
fn push_next(out: &mut String, n: usize)
    ensures
        final(out)@ == old(out)@ + words::decimal((n + 1) as nat),
{
    if n < usize::MAX {
        words::push_decimal(out, n + 1);
    } else {
        // The last digit of the largest number is a 5.
        words::push_decimal(out, n / 10);
        let d = (n % 10) as u8 + 1;
        proof {
            assert(n % 10 == 5);
        }
        words::push_char(out, (d + 48) as char);
        proof {
            assert(out@ =~= old(out)@ + words::decimal((n + 1) as nat));
        }
    }
}

impl App {
    fn position_line(&self, name: &str) -> (r: String)
        requires
            self.wf(),
        ensures
            r@ == position_text(self@, name@),
    {
        let mut out = String::from_str(" ");
        out.append(name);
        out.append(
            if self.editor.dirty {
                " [+]"
            } else {
                ""
            },
        );
        out.append(sync::sync_status_indicator(&self.sync_state).as_str());
        out.append("   Ln ");
        let lines = self.editor.buffer.line_count();
        push_next(&mut out, self.editor.cursor_line);
        out.append(", Col ");
        push_next(&mut out, self.editor.cursor_visual_col());
        out.append("   ");
        words::push_decimal(&mut out, lines);
        out.append(" lines");
        let ghost before = out@;
        match &self.active_filter {
            Some(q) => {
                out.append("  \u{2502}  [filter: ");
                out.append(q.as_str());
                out.append("]");
            },
            None => {
                out.append("");
            },
        }
        proof {
            assert(out@ =~= before + optional("  \u{2502}  [filter: "@, self@.filter, "]"@));
        }
        let ghost mid = out@;
        match &self.status_msg {
            Some(m) => {
                out.append("  \u{2502}  ");
                out.append(m.as_str());
                out.append("");
            },
            None => {
                out.append("");
            },
        }
        proof {
            assert(out@ =~= mid + optional("  \u{2502}  "@, self@.status, ""@));
        }
        out
    }

    /// The status bar, `width` cells wide. `name` is the name of the file.
    pub fn status_bar(&self, name: &str, width: usize) -> (r: StatusBar)
        requires
            self.wf(),
        ensures
            r.text@ == status_text(self@, name@),
            r.style == bar_style(status_color(self@)),
            match (r.cursor_col, status_cursor(self@, width as int)) {
                (Some(a), Some(b)) => a == b,
                (None, None) => true,
                _ => false,
            },
    {
        match &self.mode {
            Mode::OpenPrompt(input) => {
                let mut out = String::from_str(" Open file: ");
                out.append(input.as_str());
                let n = text::byte_len(input.as_str());
                StatusBar {
                    text: out,
                    style: Style::plain().with_bg(Color::DarkGray).with_fg(Color::White),
                    cursor_col: Some(clamp(12, n, width)),
                }
            },
            Mode::CommandBar(s) => {
                let mut out = String::from_str(":");
                out.append(s.input.as_str());
                out.append(
                    if s.input.as_str().is_empty() {
                        "   type :help for shortcuts \u{b7} Tab to complete"
                    } else {
                        ""
                    },
                );
                let n = text::byte_len(s.input.as_str());
                StatusBar {
                    text: out,
                    style: Style::plain().with_bg(Color::DarkGray).with_fg(Color::White),
                    cursor_col: Some(clamp(1, n, width)),
                }
            },
            Mode::Search(s) => {
                let mut out = String::from_str(" Find: ");
                out.append(s.query.as_str());
                out.append(count_matches(s).as_str());
                let none = !s.query.as_str().is_empty() && s.matches.len() == 0;
                StatusBar {
                    text: out,
                    style: Style::plain().with_bg(
                        if none {
                            Color::Red
                        } else {
                            Color::Blue
                        },
                    ).with_fg(Color::White),
                    cursor_col: None,
                }
            },
            _ => StatusBar {
                text: self.position_line(name),
                style: Style::plain().with_bg(Color::DarkGray).with_fg(Color::White),
                cursor_col: None,
            },
        }
    }
}

// ---------------------------------------------------------------------------
// Dialogs
// ---------------------------------------------------------------------------

/// Title and body of a dialog.
pub struct Dialog {
    pub title: &'static str,
    pub body: String,
}

pub open spec fn conflict_title(kind: ConflictKind) -> Seq<char> {
    match kind {
        ConflictKind::Changed => " File Changed Externally "@,
        ConflictKind::Missing => " File Deleted Externally "@,
        ConflictKind::SyncRebase => " Sync Merge Conflict "@,
    }
}

pub open spec fn conflict_body(kind: ConflictKind, name: Seq<char>) -> Seq<char> {
    match kind {
        ConflictKind::Changed => "\n\""@ + name
            + "\" was modified on disk\nwhile you were editing it.\n\n[O] Overwrite disk with your version\n[R] Reload from disk (discard edits)\n[S] Save a copy of your version\n[C] Cancel (keep editing)"@,
        ConflictKind::Missing => "\n\""@ + name
            + "\" was deleted from disk\nwhile you were editing it.\n\n[O] Re-create file with your version\n[R] Discard edits and close buffer\n[C] Cancel (keep editing)"@,
        ConflictKind::SyncRebase => "\nPulling from remote produced conflicting changes\nin \""@
            + name
            + "\".\n\n[K] Keep local \u{2014} discard remote changes\n[R] Take remote \u{2014} discard local changes\n[E] Edit manually \u{2014} resolve markers, then :sync\n[C] Cancel"@,
    }
}

/// The dialog on a conflict over the file called `name`.
pub fn conflict_dialog(kind: ConflictKind, name: &str) -> (r: Dialog)
    ensures
        r.title@ == conflict_title(kind),
        r.body@ == conflict_body(kind, name@),
{
    let (title, head, tail): (&'static str, &str, &str) = match kind {
        ConflictKind::Changed => (
            " File Changed Externally ",
            "\n\"",
            "\" was modified on disk\nwhile you were editing it.\n\n[O] Overwrite disk with your version\n[R] Reload from disk (discard edits)\n[S] Save a copy of your version\n[C] Cancel (keep editing)",
        ),
        ConflictKind::Missing => (
            " File Deleted Externally ",
            "\n\"",
            "\" was deleted from disk\nwhile you were editing it.\n\n[O] Re-create file with your version\n[R] Discard edits and close buffer\n[C] Cancel (keep editing)",
        ),
        ConflictKind::SyncRebase => (
            " Sync Merge Conflict ",
            "\nPulling from remote produced conflicting changes\nin \"",
            "\".\n\n[K] Keep local \u{2014} discard remote changes\n[R] Take remote \u{2014} discard local changes\n[E] Edit manually \u{2014} resolve markers, then :sync\n[C] Cancel",
        ),
    };
    let mut body = head.to_owned();
    body.append(name);
    body.append(tail);
    Dialog { title, body }
}

/// The dialog that offers the dictionary for download.
pub fn dictionary_dialog() -> (r: Dialog)
    ensures
        r.title@ == " Spell check "@,
        r.body@
            == "\nNo English dictionary found.\n\nDownload from raw.githubusercontent.com (~1.5 MB)?\n\n[Y]es  [N]o"@,
{
    Dialog {
        title: " Spell check ",
        body:
            "\nNo English dictionary found.\n\nDownload from raw.githubusercontent.com (~1.5 MB)?\n\n[Y]es  [N]o".to_owned(),
    }
}

pub open spec fn download_body(d: DownloadView) -> Seq<char> {
    match d.error {
        Some(e) => "\nDownload failed:\n"@ + e + "\n\nPress Esc to close"@,
        None => "\n"@ + seq![ai_panel::spinner(d.tick)]
            + "  Downloading English dictionary\u{2026}\n\n(Esc to cancel)"@,
    }
}

/// The dialog while the dictionary is downloaded, or where that failed.
pub fn download_dialog(d: &SpellDownloadState) -> (r: Dialog)
    ensures
        r.title@ == " Spell check "@,
        r.body@ == download_body(d@),
{
    let body = match &d.error {
        Some(e) => {
            let mut s = String::from_str("\nDownload failed:\n");
            s.append(e.as_str());
            s.append("\n\nPress Esc to close");
            s
        },
        None => {
            let mut s = String::from_str("\n");
            words::push_char(&mut s, ai_panel::spinner_frame(d.spinner_tick));
            proof {
                assert(s@ =~= "\n"@ + seq![ai_panel::spinner(d@.tick)]);
            }
            s.append("  Downloading English dictionary\u{2026}\n\n(Esc to cancel)");
            s
        },
    };
    Dialog { title: " Spell check ", body }
}

} // verus!
