//! What each key and command leads to: the prompt, panel or dialog that opens, and what the
//! application asks for.

use vstd::prelude::*;
use vstd::utf8::*;

use crate::ai_panel;
use crate::ai_panel::AiView;
use crate::app_rules;
use crate::app_rules::{ActionView, AppView};
use crate::command_bar::BarView;
use crate::command_laws::law_command_parts;
use crate::editing;
use crate::filter_laws::spacing;
use crate::filter_panel::PanelView;
use crate::help;
use crate::keys::{Key, KeyCode, Modifiers};
use crate::mode;
use crate::mode::{ConflictKind, ModeView, SpellScope};
use crate::persistence::FileSnapshot;
use crate::spell_wizard::WizardView;
use crate::todo_list;
use crate::todo_list::TodoKey;
use crate::todo_overlay;
use crate::todo_overlay::{ItemView, OverlayView};
use crate::words;
use crate::writing_laws::{all_spacing, law_trim, lemma_white_only};

verus! {

// ---------------------------------------------------------------------------
// Keys
// ---------------------------------------------------------------------------

/// Ctrl and a letter.
pub open spec fn ctrl(c: char) -> Key {
    Key {
        code: KeyCode::Char(c),
        mods: Modifiers { ctrl: true, alt: false, shift: false, meta: false },
    }
}

/// A key by itself.
pub open spec fn bare(code: KeyCode) -> Key {
    Key { code, mods: Modifiers { ctrl: false, alt: false, shift: false, meta: false } }
}

/// What Ctrl with a letter leads to while no dialog is open: saving, the prompts and
/// panels, the clipboard. None of these keys changes the text.
pub proof fn law_control_keys(v: AppView, c: char, stamp: Seq<char>)
    requires
        v.mode is Normal,
        c != 'z' && c != 'y',
    ensures
        ({
            let (w, a) = app_rules::after_key(v, ctrl(c), stamp);
            &&& w.editor.bytes == v.editor.bytes
            &&& c == 's' ==> a == ActionView::Save(false) && w.mode is Normal
            &&& c == 'o' ==> a is Stay && w.mode is OpenPrompt && w.mode->OpenPrompt_0.len() == 0
            &&& c == 'f' ==> a is Stay && w.mode is Search && w.mode->Search_0.query.len() == 0
                && w.mode->Search_0.matches.len() == 0
            &&& c == 'l' ==> a is OpenAi && w.mode is Normal
            &&& c == 'v' ==> a is Paste && w.mode is Normal
            &&& c == ';' ==> a is Stay && w.mode is CommandBar && w.mode->CommandBar_0.input.len()
                == 0
            &&& c == 'p' ==> a is Stay && w.mode is FilterOverlay
            &&& c == 'j' || c == 'k' ==> a is Stay && w.mode is Normal
            &&& (c == 'c' || c == 'x') && editing::selection(v.editor) is None ==> a is Stay
                && w.mode is Normal
            &&& c == 'c' && editing::selection(v.editor) is Some ==> ({
                let (p, q) = editing::selection(v.editor)->Some_0;
                a == ActionView::Copy(decode_utf8(v.editor.bytes.subrange(p, q)))
            })
            &&& c == 'x' && editing::selection(v.editor) is Some ==> ({
                let (p, q) = editing::selection(v.editor)->Some_0;
                a == ActionView::Cut(decode_utf8(v.editor.bytes.subrange(p, q)))
            })
        }),
{
    reveal(app_rules::normal_key);
    reveal(app_rules::control_key);
}

/// What the function keys lead to.
pub proof fn law_function_keys(v: AppView, n: u8, stamp: Seq<char>)
    requires
        v.mode is Normal,
    ensures
        ({
            let (w, a) = app_rules::after_key(v, bare(KeyCode::F(n)), stamp);
            &&& w.editor.bytes == v.editor.bytes
            &&& n == 1 ==> a is Stay && w.mode == ModeView::Help(0)
            &&& n == 7 ==> a is CheckSpelling && w.mode is Normal
            &&& n == 8 ==> a is Stay && w.mode is TodoOverlay
            &&& n == 10 ==> a is Stay && w.mode is CommandBar
                && w.mode->CommandBar_0.input.len() == 0
            &&& n != 7 ==> a is Stay
            &&& n != 1 && n != 8 && n != 10 ==> w.mode is Normal
        }),
{
    reveal(app_rules::normal_key);
    reveal(app_rules::function_key);
}

// ---------------------------------------------------------------------------
// Commands
// ---------------------------------------------------------------------------

/// What Enter makes of the input of the command bar.
pub open spec fn entered(v: AppView, input: Seq<char>) -> (AppView, ActionView) {
    app_rules::after_key(
        AppView {
            mode: ModeView::CommandBar(BarView { input, pos: None, saved: Seq::empty() }),
            ..v
        },
        bare(KeyCode::Enter),
        Seq::empty(),
    )
}

/// The state in which a command runs: the bar is closed, and the command remembered.
pub open spec fn running(v: AppView, cmd: Seq<char>) -> AppView {
    AppView {
        mode: ModeView::Normal,
        history: crate::command_bar::remembered(v.history, cmd),
        ..v
    }
}

proof fn lemma_entered(v: AppView, verb: Seq<char>, gap: Seq<char>, arg: Seq<char>)
    requires
        verb.len() > 0,
        !spacing(verb[0]),
        !spacing(verb.last()),
        !verb.contains(' '),
        all_spacing(gap),
        arg.len() > 0 ==> !spacing(arg[0]) && !spacing(arg.last()),
    ensures
        entered(v, verb) == app_rules::run_command(running(v, verb), verb),
        app_rules::verb_of(verb) == verb,
        app_rules::argument_of(verb).len() == 0,
        arg.len() > 0 ==> ({
            let cmd = verb + seq![' '] + (gap + arg);
            &&& entered(v, cmd) == app_rules::run_command(running(v, cmd), cmd)
            &&& app_rules::verb_of(cmd) == verb
            &&& app_rules::argument_of(cmd) == arg
        }),
{
    reveal(app_rules::bar_key);
    let none = Seq::<char>::empty();
    law_trim(none, verb, none);
    assert(none + verb + none =~= verb);
    law_command_parts(verb, gap, arg, none);
    assert(app_rules::after_key(
        AppView {
            mode: ModeView::CommandBar(BarView { input: verb, pos: None, saved: none }),
            ..v
        },
        bare(KeyCode::Enter),
        none,
    ) == entered(v, verb));
    assert(running(v, verb) =~= AppView {
        history: crate::command_bar::remembered(v.history, verb),
        mode: ModeView::Normal,
        ..v
    });
    if arg.len() > 0 {
        let cmd = verb + seq![' '] + (gap + arg);
        assert(gap + arg + none =~= gap + arg);
        assert(cmd[0] == verb[0]);
        assert(cmd.last() == arg.last());
        law_trim(none, cmd, none);
        assert(none + cmd + none =~= cmd);
    }
}

proof fn lemma_verbs()
    ensures
        "w"@ == seq!['w'],
        "write"@ == seq!['w', 'r', 'i', 't', 'e'],
        "q"@ == seq!['q'],
        "quit"@ == seq!['q', 'u', 'i', 't'],
        "q!"@ == seq!['q', '!'],
        "quit!"@ == seq!['q', 'u', 'i', 't', '!'],
        "wq"@ == seq!['w', 'q'],
        "x"@ == seq!['x'],
        "goto"@ == seq!['g', 'o', 't', 'o'],
        "go"@ == seq!['g', 'o'],
        "todo"@ == seq!['t', 'o', 'd', 'o'],
        "ai"@ == seq!['a', 'i'],
        "filter"@ == seq!['f', 'i', 'l', 't', 'e', 'r'],
        "next"@ == seq!['n', 'e', 'x', 't'],
        "prev"@ == seq!['p', 'r', 'e', 'v'],
        "clear"@ == seq!['c', 'l', 'e', 'a', 'r'],
        "help"@ == seq!['h', 'e', 'l', 'p'],
        "sync"@ == seq!['s', 'y', 'n', 'c'],
        "spell"@ == seq!['s', 'p', 'e', 'l', 'l'],
        "all"@ == seq!['a', 'l', 'l'],
{
    reveal_strlit("w");
    reveal_strlit("write");
    reveal_strlit("q");
    reveal_strlit("quit");
    reveal_strlit("q!");
    reveal_strlit("quit!");
    reveal_strlit("wq");
    reveal_strlit("x");
    reveal_strlit("goto");
    reveal_strlit("go");
    reveal_strlit("todo");
    reveal_strlit("ai");
    reveal_strlit("filter");
    reveal_strlit("next");
    reveal_strlit("prev");
    reveal_strlit("clear");
    reveal_strlit("help");
    reveal_strlit("sync");
    reveal_strlit("spell");
    reveal_strlit("all");
    assert("w"@ =~= seq!['w']);
    assert("write"@ =~= seq!['w', 'r', 'i', 't', 'e']);
    assert("q"@ =~= seq!['q']);
    assert("quit"@ =~= seq!['q', 'u', 'i', 't']);
    assert("q!"@ =~= seq!['q', '!']);
    assert("quit!"@ =~= seq!['q', 'u', 'i', 't', '!']);
    assert("wq"@ =~= seq!['w', 'q']);
    assert("x"@ =~= seq!['x']);
    assert("goto"@ =~= seq!['g', 'o', 't', 'o']);
    assert("go"@ =~= seq!['g', 'o']);
    assert("todo"@ =~= seq!['t', 'o', 'd', 'o']);
    assert("ai"@ =~= seq!['a', 'i']);
    assert("filter"@ =~= seq!['f', 'i', 'l', 't', 'e', 'r']);
    assert("next"@ =~= seq!['n', 'e', 'x', 't']);
    assert("prev"@ =~= seq!['p', 'r', 'e', 'v']);
    assert("clear"@ =~= seq!['c', 'l', 'e', 'a', 'r']);
    assert("help"@ =~= seq!['h', 'e', 'l', 'p']);
    assert("sync"@ =~= seq!['s', 'y', 'n', 'c']);
    assert("spell"@ =~= seq!['s', 'p', 'e', 'l', 'l']);
    assert("all"@ =~= seq!['a', 'l', 'l']);
}

/// `cmd` names `verb` and takes no part in another one.
proof fn lemma_plain_verb(v: AppView, verb: Seq<char>)
    requires
        verb.len() > 0,
        forall|k: int| 0 <= k < verb.len() ==> !spacing(#[trigger] verb[k]),
    ensures
        entered(v, verb) == app_rules::run_command(running(v, verb), verb),
        app_rules::verb_of(verb) == verb,
        app_rules::argument_of(verb).len() == 0,
{
    if verb.contains(' ') {
        let k = choose|k: int| 0 <= k < verb.len() && verb[k] == ' ';
        assert(spacing(verb[k]));
    }
    assert(!spacing(verb[0]));
    assert(!spacing(verb[verb.len() - 1]));
    let none = Seq::<char>::empty();
    lemma_entered(v, verb, none, none);
}

/// `:w` saves, `:wq` and `:x` save and leave, `:q!` leaves, and `:q` leaves if nothing is
/// unsaved.
#[verifier::spinoff_prover]
pub proof fn law_saving_and_leaving(v: AppView)
    ensures
        entered(v, seq!['w']).1 == ActionView::Save(false),
        entered(v, seq!['w', 'r', 'i', 't', 'e']).1 == ActionView::Save(false),
        entered(v, seq!['w', 'q']).1 == ActionView::Save(true),
        entered(v, seq!['x']).1 == ActionView::Save(true),
        entered(v, seq!['q', '!']).1 is Quit,
        entered(v, seq!['q', 'u', 'i', 't', '!']).1 is Quit,
        entered(v, seq!['q']).1 is Quit <==> !v.editor.dirty,
        entered(v, seq!['q', 'u', 'i', 't']).1 is Quit <==> !v.editor.dirty,
        entered(v, seq!['q']).0.editor == v.editor,
        entered(v, seq!['w']).0.editor == v.editor,
{
    lemma_verbs();
    reveal(app_rules::run_command);
    lemma_plain_verb(v, seq!['w']);
    lemma_plain_verb(v, seq!['w', 'r', 'i', 't', 'e']);
    lemma_plain_verb(v, seq!['w', 'q']);
    lemma_plain_verb(v, seq!['x']);
    lemma_plain_verb(v, seq!['q', '!']);
    lemma_plain_verb(v, seq!['q', 'u', 'i', 't', '!']);
    lemma_plain_verb(v, seq!['q']);
    lemma_plain_verb(v, seq!['q', 'u', 'i', 't']);
}

/// `:todo`, `:filter` and `:help` open what they name, `:ai` asks for the assistant,
/// `:clear` ends the filter.
#[verifier::spinoff_prover]
pub proof fn law_opening(v: AppView)
    ensures
        entered(v, seq!['t', 'o', 'd', 'o']).0.mode is TodoOverlay,
        entered(v, seq!['f', 'i', 'l', 't', 'e', 'r']).0.mode is FilterOverlay,
        entered(v, seq!['h', 'e', 'l', 'p']).0.mode == ModeView::Help(0),
        entered(v, seq!['a', 'i']).1 is OpenAi,
        entered(v, seq!['c', 'l', 'e', 'a', 'r']).0.filter is None,
        entered(v, seq!['c', 'l', 'e', 'a', 'r']).0.editor == v.editor,
{
    lemma_verbs();
    reveal(app_rules::run_command);
    lemma_plain_verb(v, seq!['t', 'o', 'd', 'o']);
    lemma_plain_verb(v, seq!['f', 'i', 'l', 't', 'e', 'r']);
    lemma_plain_verb(v, seq!['h', 'e', 'l', 'p']);
    lemma_plain_verb(v, seq!['a', 'i']);
    lemma_plain_verb(v, seq!['c', 'l', 'e', 'a', 'r']);
}

/// `:goto` goes to the line that is named behind it, and so does `:go`.
#[verifier::spinoff_prover]
pub proof fn law_goto_commands(v: AppView, gap: Seq<char>, arg: Seq<char>)
    requires
        all_spacing(gap),
        arg.len() > 0,
        !spacing(arg[0]),
        !spacing(arg.last()),
    ensures
        ({
            let cmd = seq!['g', 'o', 't', 'o'] + seq![' '] + (gap + arg);
            entered(v, cmd).0 == app_rules::went_to(running(v, cmd), arg)
        }),
        ({
            let cmd = seq!['g', 'o'] + seq![' '] + (gap + arg);
            entered(v, cmd).0 == app_rules::went_to(running(v, cmd), arg)
        }),
{
    lemma_verbs();
    lemma_entered(v, seq!['g', 'o', 't', 'o'], gap, arg);
    lemma_entered(v, seq!['g', 'o'], gap, arg);
    reveal(app_rules::run_command);
}

/// `:filter` with a query opens the panel on it.
#[verifier::spinoff_prover]
pub proof fn law_filter_command(v: AppView, gap: Seq<char>, arg: Seq<char>)
    requires
        all_spacing(gap),
        arg.len() > 0,
        !spacing(arg[0]),
        !spacing(arg.last()),
    ensures
        ({
            let cmd = seq!['f', 'i', 'l', 't', 'e', 'r'] + seq![' '] + (gap + arg);
            &&& entered(v, cmd).0.mode is FilterOverlay
            &&& entered(v, cmd).0.mode->FilterOverlay_0.query.chars == arg
        }),
{
    lemma_verbs();
    lemma_entered(v, seq!['f', 'i', 'l', 't', 'e', 'r'], gap, arg);
    reveal(app_rules::run_command);
}

/// `:spell all` checks the whole file, `:spell` the selection or the note.
#[verifier::spinoff_prover]
pub proof fn law_spell_command(v: AppView, gap: Seq<char>)
    requires
        all_spacing(gap),
    ensures
        entered(
            v,
            seq!['s', 'p', 'e', 'l', 'l'] + seq![' '] + (gap + seq!['a', 'l', 'l']),
        ).1 == ActionView::CheckSpelling(SpellScope::WholeFile),
        entered(v, seq!['s', 'p', 'e', 'l', 'l']).1 == ActionView::CheckSpelling(
            mode::default_scope(v.editor),
        ),
{
    lemma_verbs();
    lemma_entered(v, seq!['s', 'p', 'e', 'l', 'l'], gap, seq!['a', 'l', 'l']);
    reveal(app_rules::run_command);
}

// ---------------------------------------------------------------------------
// Dialogs
// ---------------------------------------------------------------------------

/// The application while a conflict waits for an answer.
pub open spec fn asked(v: AppView, kind: ConflictKind, c: char) -> (AppView, ActionView) {
    app_rules::after_key(
        AppView { mode: ModeView::Conflict(kind), ..v },
        bare(KeyCode::Char(c)),
        Seq::empty(),
    )
}

/// What the answers to a conflict do, in small letters and large. The file that changed can
/// be overwritten, left with a copy beside it, or read again; one that is gone can be
/// written, or the text taken as saved; of a sync that met other changes either side can be
/// kept, or both be edited. Cancelling keeps everything.
pub proof fn law_conflict_answers(v: AppView)
    ensures
        asked(v, ConflictKind::Changed, 'o').1 is Write && asked(v, ConflictKind::Changed, 'O').1
            is Write,
        asked(v, ConflictKind::Changed, 's').1 is WriteCopy && asked(
            v,
            ConflictKind::Changed,
            'S',
        ).1 is WriteCopy,
        asked(v, ConflictKind::Changed, 'r').1 is Reload && asked(v, ConflictKind::Changed, 'R').1
            is Reload,
        asked(v, ConflictKind::Changed, 'c').1 is Stay && asked(v, ConflictKind::Changed, 'c').0.mode
            is Normal && asked(v, ConflictKind::Changed, 'c').0.editor == v.editor,
        asked(v, ConflictKind::Missing, 'o').1 is Write,
        asked(v, ConflictKind::Missing, 's').1 is Stay && asked(v, ConflictKind::Missing, 's').0.mode
            is Conflict,
        asked(v, ConflictKind::Missing, 'r').1 is Stay && !asked(
            v,
            ConflictKind::Missing,
            'r',
        ).0.editor.dirty,
        v.repo ==> asked(v, ConflictKind::SyncRebase, 'k').1 == ActionView::Resolve(true),
        v.repo ==> asked(v, ConflictKind::SyncRebase, 'r').1 == ActionView::Resolve(false),
        asked(v, ConflictKind::SyncRebase, 'e').1 is Reload,
        asked(v, ConflictKind::SyncRebase, 'c').1 is Stay && asked(
            v,
            ConflictKind::SyncRebase,
            'c',
        ).0.editor == v.editor,
        asked(v, ConflictKind::SyncRebase, 'o').1 is Stay && asked(
            v,
            ConflictKind::SyncRebase,
            'o',
        ).0.mode is Conflict,
{
    reveal(app_rules::conflict_key);
}

/// A file that is read again or opened takes the place of the text: it is unchanged since,
/// and nothing before can be undone. Opening goes to the place remembered, if there is one,
/// else to the start.
pub proof fn law_file_is_read(
    v: AppView,
    path: Seq<char>,
    t: Seq<char>,
    snap: Option<FileSnapshot>,
)
    ensures
        ({
            let w = app_rules::after_reload(v, Ok((t, snap)));
            let o = app_rules::after_open(v, path, Ok((t, snap)), None);
            &&& w.editor.bytes == encode_utf8(t) && o.editor.bytes == encode_utf8(t)
            &&& !w.editor.dirty && !o.editor.dirty
            &&& w.editor.stacks.undo.len() == 0 && o.editor.stacks.undo.len() == 0
            &&& w.snapshot == snap && o.snapshot == snap
            &&& w.file == v.file && o.file == path
            &&& o.editor.line == 0 && o.editor.byte == 0
        }),
{
}

// ---------------------------------------------------------------------------
// Lists
// ---------------------------------------------------------------------------

/// How many of the first `n` todos the overlay shows.
pub open spec fn visible(items: Seq<ItemView>, all: bool, n: int) -> int
    decreases n,
{
    if n <= 0 {
        0
    } else {
        visible(items, all, n - 1) + if all || !items[n - 1].done {
            1int
        } else {
            0
        }
    }
}

proof fn lemma_visible(items: Seq<ItemView>, all: bool, n: int)
    requires
        0 <= n <= items.len(),
    ensures
        todo_overlay::shown_upto(items, all, n).len() == visible(items, all, n),
        forall|k: int|
            0 <= k < n && (all || !(#[trigger] items[k]).done) ==> 0 <= visible(items, all, k)
                < visible(items, all, n) && todo_overlay::shown_upto(
                items,
                all,
                n,
            )[visible(items, all, k)] == items[k],
    decreases n,
{
    if n > 0 {
        lemma_visible(items, all, n - 1);
    }
}

/// The overlay shows the open todos in order, or all of them.
pub proof fn law_overlay_shows(v: OverlayView, k: int)
    requires
        0 <= k < v.items.len(),
    ensures
        v.shown().len() == visible(v.items, v.show_done, v.items.len() as int),
        v.show_done || !v.items[k].done ==> v.shown()[visible(v.items, v.show_done, k)]
            == v.items[k],
{
    lemma_visible(v.items, v.show_done, v.items.len() as int);
}

/// The keys of the overlay: down and up move the selection by one and stop at the ends, `a`
/// shows or hides what is done, and Space writes the other marker over that of the selected
/// todo.
pub proof fn law_overlay_keys(v: OverlayView, e: editing::EditorView, code: KeyCode)
    requires
        0 <= v.selected < v.shown().len(),
    ensures
        ({
            let n = v.shown().len();
            let (w, f) = v.after(e, bare(code));
            &&& code == KeyCode::Down || code == KeyCode::Char('j') ==> w.selected
                == if v.selected == n - 1 {
                v.selected
            } else {
                v.selected + 1
            }
            &&& code == KeyCode::Up || code == KeyCode::Char('k') ==> w.selected
                == if v.selected == 0 {
                0
            } else {
                v.selected - 1
            }
            &&& code == KeyCode::Char('a') ==> w.show_done != v.show_done && w.items == v.items
            &&& code != KeyCode::Char(' ') ==> f.bytes == e.bytes
            &&& code == KeyCode::Char(' ') ==> ({
                let g = todo_overlay::toggled(e, v.shown()[v.selected]);
                f.bytes == g.bytes && w.items == todo_overlay::items_in(g.bytes) && w.show_done
                    == v.show_done
            })
        }),
{
}

/// In the filter panel, down and up select the next and the previous match and stop at the
/// ends; a character goes into the query, and the matches are those of the new query, the
/// first one selected.
pub proof fn law_panel_keys(
    p: PanelView,
    e: editing::EditorView,
    filter: Option<Seq<char>>,
    code: KeyCode,
)
    requires
        0 <= p.selected < p.matches.len(),
        0 <= p.query.at <= p.query.chars.len(),
    ensures
        ({
            let n = p.matches.len();
            let (w, f, g) = p.after(e, filter, bare(code));
            &&& f.bytes == e.bytes
            &&& code == KeyCode::Down ==> w.selected == if p.selected == n - 1 {
                p.selected
            } else {
                p.selected + 1
            }
            &&& code == KeyCode::Up ==> w.selected == if p.selected == 0 {
                0
            } else {
                p.selected - 1
            }
            &&& code == KeyCode::Down || code == KeyCode::Up ==> w.matches == p.matches && g
                == filter
            &&& code matches KeyCode::Char(c) ==> {
                let q = words::trim(p.query.inserted(seq![c]).chars);
                &&& w.query == p.query.inserted(seq![c])
                &&& w.selected == 0
                &&& q.len() == 0 ==> g is None && w.matches.len() == 0
                &&& q.len() > 0 ==> g == Some(q) && w.matches == crate::commands::filter_list(
                    e.bytes,
                    q,
                )
            }
        }),
{
}

// ---------------------------------------------------------------------------
// Prompts and panels
// ---------------------------------------------------------------------------

/// A file name that is asked for grows by the characters typed and shrinks by Backspace;
/// Enter opens the file of that name, without the white space around it, and closes the
/// prompt, which is all it does with a blank one.
pub proof fn law_open_prompt(v: AppView, name: Seq<char>, c: char, stamp: Seq<char>)
    requires
        v.mode == ModeView::OpenPrompt(name),
    ensures
        app_rules::after_key(v, bare(KeyCode::Char(c)), stamp).0.mode == ModeView::OpenPrompt(
            name.push(c),
        ),
        name.len() > 0 ==> app_rules::after_key(v, bare(KeyCode::Backspace), stamp).0.mode
            == ModeView::OpenPrompt(name.subrange(0, name.len() - 1)),
        all_spacing(name) ==> app_rules::after_key(v, bare(KeyCode::Enter), stamp).1 is Stay,
        !all_spacing(name) ==> app_rules::after_key(v, bare(KeyCode::Enter), stamp).1
            == ActionView::Open(words::trim(name)),
        app_rules::after_key(v, bare(KeyCode::Enter), stamp).0.mode is Normal,
        app_rules::after_key(v, bare(KeyCode::Enter), stamp).0.editor == v.editor,
{
    reveal(app_rules::open_prompt_key);
    lemma_white_only(name);
    if name.len() > 0 {
        assert(name.drop_last() =~= name.subrange(0, name.len() - 1));
    }
}

/// In the help, the arrows and `j` and `k` scroll by one line, the page keys by ten, Home
/// and End to the ends, and never past them; Esc, `q` and F1 close it.
pub proof fn law_help_keys(scroll: int, most: int, code: KeyCode)
    requires
        0 <= scroll <= most,
    ensures
        ({
            let r = help::scrolled(scroll, most, bare(code));
            let to = |n: int|
                Some(
                    if n < 0 {
                        0
                    } else if n > most {
                        most
                    } else {
                        n
                    },
                );
            &&& code == KeyCode::Down || code == KeyCode::Char('j') ==> r == to(scroll + 1)
            &&& code == KeyCode::Up || code == KeyCode::Char('k') ==> r == to(scroll - 1)
            &&& code == KeyCode::PageDown ==> r == to(scroll + 10)
            &&& code == KeyCode::PageUp ==> r == to(scroll - 10)
            &&& code == KeyCode::Home ==> r == Some(0int)
            &&& code == KeyCode::End ==> r == Some(most)
            &&& r is None <==> code == KeyCode::Esc || code == KeyCode::Char('q') || code
                == KeyCode::F(1)
        }),
{
}

/// The panel of the assistant: Enter sends the prompt with the text it is about, unless it
/// is blank or a reply is awaited; Ctrl+Enter puts the reply in the place of that text; Esc
/// gives up waiting, or closes the panel.
pub proof fn law_assistant_keys(v: AppView, s: AiView, stamp: Seq<char>)
    requires
        v.mode == ModeView::AiPanel(s),
    ensures
        ({
            let (w, a) = app_rules::after_key(v, bare(KeyCode::Enter), stamp);
            &&& w.editor == v.editor
            &&& w.mode is AiPanel
            &&& s.loading || all_spacing(s.prompt.chars) ==> a is Stay
            &&& !s.loading && !all_spacing(s.prompt.chars) ==> a == ActionView::AskAi(
                s.prompt.chars,
                s.original,
            )
        }),
        ({
            let key = Key {
                code: KeyCode::Enter,
                mods: Modifiers { ctrl: true, alt: false, shift: false, meta: false },
            };
            let (w, a) = app_rules::after_key(v, key, stamp);
            &&& a is Stay
            &&& s.candidate is None || s.loading ==> w.editor == v.editor && w.mode is AiPanel
            &&& s.candidate is Some && !s.loading ==> w.mode is Normal && w.editor
                == ai_panel::accepted(v.editor, s.range, s.candidate->Some_0)
        }),
        ({
            let (w, a) = app_rules::after_key(v, bare(KeyCode::Esc), stamp);
            &&& a is Stay && w.editor == v.editor
            &&& s.loading ==> w.mode is AiPanel && !w.mode->AiPanel_0.loading
            &&& !s.loading ==> w.mode is Normal
        }),
{
    reveal(app_rules::ai_key);
    lemma_white_only(s.prompt.chars);
}

/// While spelling is checked, `s` skips the word for the rest of the check, in whatever
/// case, and `a` adds it in small letters; both leave the text alone. Esc ends the check.
pub proof fn law_spell_check_keys(v: AppView, w: WizardView, stamp: Seq<char>)
    requires
        v.mode == ModeView::SpellCheck(w),
        v.engine is Some,
    ensures
        ({
            let (u, a) = app_rules::after_key(v, bare(KeyCode::Char('s')), stamp);
            &&& a is Stay
            &&& u.editor.bytes == v.editor.bytes
            &&& u.mode is SpellCheck ==> u.mode->SpellCheck_0.skipped == w.skipped.insert(
                words::lower(w.word),
            )
        }),
        ({
            let (u, a) = app_rules::after_key(v, bare(KeyCode::Char('a')), stamp);
            &&& u.editor.bytes == v.editor.bytes
            &&& !all_spacing(w.word) ==> a == ActionView::AddWord(
                words::lower(words::trim(w.word)),
            ) && u.engine->Some_0.user == v.engine->Some_0.user.insert(
                words::lower(words::trim(w.word)),
            )
        }),
        ({
            let (u, a) = app_rules::after_key(v, bare(KeyCode::Esc), stamp);
            a is Stay && u.mode is Normal && u.editor == v.editor
        }),
{
    reveal(app_rules::spell_key);
    lemma_white_only(w.word);
}

/// The keys of the todo list: `j`, `k` and the arrows move by one row and stop at the ends,
/// Space and Enter toggle, `+` adds, `q` and Ctrl+C leave.
pub proof fn law_todo_list_keys(selected: int, n: int)
    requires
        0 <= selected < n,
    ensures
        todo_list::todo_key(bare(KeyCode::Char('j'))) is Down,
        todo_list::todo_key(bare(KeyCode::Down)) is Down,
        todo_list::todo_key(bare(KeyCode::Char('k'))) is Up,
        todo_list::todo_key(bare(KeyCode::Up)) is Up,
        todo_list::todo_key(bare(KeyCode::Char(' '))) is Toggle,
        todo_list::todo_key(bare(KeyCode::Enter)) is Toggle,
        todo_list::todo_key(bare(KeyCode::Char('+'))) is Add,
        todo_list::todo_key(bare(KeyCode::Char('q'))) is Quit,
        todo_list::todo_key(ctrl('c')) is Quit,
        todo_list::todo_key(bare(KeyCode::Char('c'))) is Nothing,
        selected < n - 1 ==> todo_list::moved(selected, n, TodoKey::Down) == selected + 1,
        selected == n - 1 ==> todo_list::moved(selected, n, TodoKey::Down) == selected,
        selected > 0 ==> todo_list::moved(selected, n, TodoKey::Up) == selected - 1,
        selected == 0 ==> todo_list::moved(selected, n, TodoKey::Up) == 0,
        todo_list::moved(selected, n, TodoKey::Toggle) == selected,
{
}

} // verus!
