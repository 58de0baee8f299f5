//! The command bar: input, completion and session history.

use vstd::prelude::*;
use vstd::string::StrSliceExecFns;

use crate::keys::{Key, KeyCode};
use crate::text;
use crate::words;

verus! {

// ---------------------------------------------------------------------------
// Completion
// ---------------------------------------------------------------------------

/// Every command-bar verb.
pub open spec fn verbs() -> Seq<&'static str> {
    seq![
        "w",
        "write",
        "q",
        "quit",
        "q!",
        "quit!",
        "wq",
        "x",
        "goto",
        "go",
        "todo",
        "ai",
        "filter",
        "next",
        "prev",
        "clear",
        "spell",
        "help",
        "sync",
        "set",
    ]
}

/// Every command-bar verb that is wired into command execution. Used for Tab
/// completion in the command bar.
pub fn command_verbs() -> (r: Vec<&'static str>)
    ensures
        r@ == verbs(),
{
    let r: Vec<&'static str> = vec![
        "w",
        "write",
        "q",
        "quit",
        "q!",
        "quit!",
        "wq",
        "x",
        "goto",
        "go",
        "todo",
        "ai",
        "filter",
        "next",
        "prev",
        "clear",
        "spell",
        "help",
        "sync",
        "set",
    ];
    proof {
        assert(r@ =~= verbs());
    }
    r
}

/// Those of the first `n` of `all` that begin with `input`.
pub open spec fn with_prefix(all: Seq<&'static str>, input: Seq<char>, n: int) -> Seq<
    &'static str,
>
    decreases n,
{
    if n <= 0 {
        Seq::empty()
    } else if text::begins_with(all[n - 1]@, input) {
        with_prefix(all, input, n - 1).push(all[n - 1])
    } else {
        with_prefix(all, input, n - 1)
    }
}

/// How many characters `a` and `b` have in common from `i` on.
pub open spec fn common_from(a: Seq<char>, b: Seq<char>, i: int) -> int
    decreases a.len() - i,
{
    if 0 <= i < a.len() && i < b.len() && a[i] == b[i] {
        common_from(a, b, i + 1)
    } else {
        i
    }
}

/// How many characters the first of `all` has in common with the first `n`.
pub open spec fn common_len(all: Seq<&'static str>, n: int) -> int
    decreases n,
{
    if n <= 1 {
        all[0]@.len() as int
    } else {
        let before = common_len(all, n - 1);
        let here = common_from(all[0]@, all[n - 1]@, 0);
        if here < before {
            here
        } else {
            before
        }
    }
}

/// What Tab makes of the input: the only verb that begins with it and a space, or
/// what all such verbs have in common if that is more.
pub open spec fn completion(input: Seq<char>) -> Option<Seq<char>> {
    let found = with_prefix(verbs(), input, verbs().len() as int);
    if found.len() == 0 {
        None
    } else if found.len() == 1 {
        Some(found[0]@ + " "@)
    } else {
        let n = common_len(found, found.len() as int);
        if n > input.len() {
            Some(found[0]@.subrange(0, n))
        } else {
            None
        }
    }
}

fn common_prefix(a: &str, b: &str) -> (r: usize)
    ensures
        r == common_from(a@, b@, 0),
        r <= a@.len(),
{
    let x = text::chars_of(a);
    let y = text::chars_of(b);
    let mut i: usize = 0;
    while i < x.len() && i < y.len() && x[i] == y[i]
        invariant
            i <= x.len(),
            x@ == a@,
            y@ == b@,
            common_from(a@, b@, i as int) == common_from(a@, b@, 0),
        decreases x.len() - i,
    {
        i += 1;
    }
    i
}

/// Try to complete `input` against the command verbs. Returns the new input
/// string if completion produced a longer prefix; `None` if there's nothing to
/// complete (no matches, or already at the common prefix among multiple).
pub fn complete_command_verb(input: &str) -> (r: Option<String>)
    ensures
        match (r, completion(input@)) {
            (Some(s), Some(t)) => s@ == t,
            (None, None) => true,
            _ => false,
        },
{
    let all = command_verbs();
    let mut found: Vec<&'static str> = Vec::new();
    let mut i: usize = 0;
    while i < all.len()
        invariant
            i <= all.len(),
            all@ == verbs(),
            found@ == with_prefix(verbs(), input@, i as int),
        decreases all.len() - i,
    {
        if text::starts_with(all[i], input) {
            found.push(all[i]);
        }
        i += 1;
    }
    if found.len() == 0 {
        return None;
    }
    if found.len() == 1 {
        let mut out = found[0].to_owned();
        out.append(" ");
        return Some(out);
    }
    let first = found[0];
    let mut n: usize = first.unicode_len();
    let mut j: usize = 1;
    while j < found.len()
        invariant
            1 <= j <= found.len(),
            first == found@[0],
            n == common_len(found@, j as int),
            n <= first@.len(),
        decreases found.len() - j,
    {
        let here = common_prefix(first, found[j]);
        if here < n {
            n = here;
        }
        j += 1;
    }
    if n > input.unicode_len() {
        Some(first.substring_char(0, n).to_owned())
    } else {
        None
    }
}

// ---------------------------------------------------------------------------
// State
// ---------------------------------------------------------------------------

pub struct CommandBarState {
    pub input: String,
    /// Index into the history while browsing with Up/Down; `None` = live input.
    pub hist_pos: Option<usize>,
    /// Live input saved while browsing history so Down can restore it.
    pub saved_input: String,
}

#[verifier::ext_equal]
pub struct BarView {
    pub input: Seq<char>,
    pub pos: Option<int>,
    pub saved: Seq<char>,
}

impl View for CommandBarState {
    type V = BarView;

    open spec fn view(&self) -> BarView {
        BarView {
            input: self.input@,
            pos: match self.hist_pos {
                Some(i) => Some(i as int),
                None => None,
            },
            saved: self.saved_input@,
        }
    }
}

/// What a key does beyond the bar itself.
pub enum BarOutcome {
    /// The bar stays open.
    Stay,
    /// Esc: the bar closes.
    Cancel,
    /// Enter: the bar closes, and the command is run if it is not empty.
    Run(String),
}

impl BarView {
    pub open spec fn blank() -> BarView {
        BarView { input: Seq::empty(), pos: None, saved: Seq::empty() }
    }

    /// The entry that Up and Down have brought up.
    pub open spec fn browsing(self, history: Seq<Seq<char>>) -> bool {
        self.pos matches Some(i) ==> 0 <= i < history.len()
    }

    /// The older entry: the newest one first, and the live input is kept.
    pub open spec fn older(self, history: Seq<Seq<char>>) -> BarView {
        match self.pos {
            None => if history.len() == 0 {
                self
            } else {
                BarView { input: history.last(), pos: Some(history.len() - 1), saved: self.input }
            },
            Some(i) => if i > 0 && history.len() > 0 {
                BarView { input: history[i - 1], pos: Some(i - 1), ..self }
            } else {
                self
            },
        }
    }

    /// The newer entry; after the newest one, the live input again.
    pub open spec fn newer(self, history: Seq<Seq<char>>) -> BarView {
        match self.pos {
            None => self,
            Some(i) => if i + 1 < history.len() {
                BarView { input: history[i + 1], pos: Some(i + 1), ..self }
            } else {
                BarView { input: self.saved, pos: None, ..self }
            },
        }
    }

    /// What Tab does: only the verb is completed.
    pub open spec fn completed(self) -> BarView {
        if self.input.contains(' ') {
            self
        } else {
            match completion(self.input) {
                Some(c) => BarView { input: c, pos: None, ..self },
                None => self,
            }
        }
    }

    /// The bar after a key that keeps it open.
    pub open spec fn after(self, history: Seq<Seq<char>>, key: Key) -> BarView {
        match key.code {
            KeyCode::Backspace => BarView {
                input: if self.input.len() > 0 {
                    self.input.drop_last()
                } else {
                    self.input
                },
                pos: None,
                ..self
            },
            KeyCode::Tab => self.completed(),
            KeyCode::Up => self.older(history),
            KeyCode::Down => self.newer(history),
            KeyCode::Char(c) => if key.mods.ctrl || key.mods.alt {
                self
            } else {
                BarView { input: self.input.push(c), pos: None, ..self }
            },
            _ => self,
        }
    }
}

/// Esc or Ctrl+G closes the bar without a command.
pub open spec fn cancels(key: Key) -> bool {
    key.code == KeyCode::Esc || (key.code == KeyCode::Char('g') && key.mods.only_ctrl())
}

fn is_cancel(key: Key) -> (r: bool)
    ensures
        r == cancels(key),
{
    match key.code {
        KeyCode::Esc => true,
        KeyCode::Char(c) => c == 'g' && key.mods.is_only_ctrl(),
        _ => false,
    }
}

fn has_space(s: &str) -> (r: bool)
    ensures
        r == s@.contains(' '),
{
    let cs = text::chars_of(s);
    let mut i: usize = 0;
    while i < cs.len()
        invariant
            i <= cs.len(),
            cs@ == s@,
            forall|k: int| 0 <= k < i ==> #[trigger] cs@[k] != ' ',
        decreases cs.len() - i,
    {
        if cs[i] == ' ' {
            proof {
                assert(s@[i as int] == ' ');
            }
            return true;
        }
        i += 1;
    }
    false
}

impl CommandBarState {
    pub fn new() -> (r: Self)
        ensures
            r@ == BarView::blank(),
    {
        let r = CommandBarState {
            input: String::new(),
            hist_pos: None,
            saved_input: String::new(),
        };
        proof {
            assert(r@ =~= BarView::blank());
        }
        r
    }

    /// Handle a key while the command bar is open.
    pub fn handle_key(&mut self, history: &Vec<String>, key: Key) -> (r: BarOutcome)
        requires
            old(self)@.browsing(words::texts(history@)),
        ensures
            final(self)@.browsing(words::texts(history@)),
            if cancels(key) {
                r is Cancel && final(self)@ == old(self)@
            } else if key.code is Enter {
                r matches BarOutcome::Run(s) && s@ == words::trim(old(self)@.input)
                    && final(self)@ == old(self)@
            } else {
                r is Stay && final(self)@ == old(self)@.after(words::texts(history@), key)
            },
    {
        if is_cancel(key) {
            return BarOutcome::Cancel;
        }
        match key.code {
            KeyCode::Enter => {
                return BarOutcome::Run(words::trimmed(self.input.as_str()).to_owned());
            },
            KeyCode::Backspace => {
                self.hist_pos = None;
                self.input = words::without_last(self.input.as_str());
            },
            KeyCode::Tab => {
                if !has_space(self.input.as_str()) {
                    if let Some(c) = complete_command_verb(self.input.as_str()) {
                        self.input = c;
                        self.hist_pos = None;
                    }
                }
            },
            KeyCode::Up => {
                self.browse_older(history);
            },
            KeyCode::Down => {
                self.browse_newer(history);
            },
            KeyCode::Char(c) => {
                if !(key.mods.ctrl || key.mods.alt) {
                    self.hist_pos = None;
                    words::push_char(&mut self.input, c);
                }
            },
            _ => {},
        }
        BarOutcome::Stay
    }

    fn browse_older(&mut self, history: &Vec<String>)
        requires
            old(self)@.browsing(words::texts(history@)),
        ensures
            final(self)@.browsing(words::texts(history@)),
            final(self)@ == old(self)@.older(words::texts(history@)),
    {
        let n = history.len();
        match self.hist_pos {
            None => {
                if n > 0 {
                    self.saved_input = self.input.as_str().to_owned();
                    self.input = history[n - 1].as_str().to_owned();
                    self.hist_pos = Some(n - 1);
                }
            },
            Some(i) => {
                if i > 0 {
                    self.input = history[i - 1].as_str().to_owned();
                    self.hist_pos = Some(i - 1);
                }
            },
        }
    }

    fn browse_newer(&mut self, history: &Vec<String>)
        requires
            old(self)@.browsing(words::texts(history@)),
        ensures
            final(self)@.browsing(words::texts(history@)),
            final(self)@ == old(self)@.newer(words::texts(history@)),
    {
        if let Some(i) = self.hist_pos {
            if i < history.len() - 1 {
                self.input = history[i + 1].as_str().to_owned();
                self.hist_pos = Some(i + 1);
            } else {
                self.input = self.saved_input.as_str().to_owned();
                self.hist_pos = None;
            }
        }
    }
}

/// The history after a command: repeated commands are kept once.
pub open spec fn remembered(history: Seq<Seq<char>>, cmd: Seq<char>) -> Seq<Seq<char>> {
    if history.len() > 0 && history.last() == cmd {
        history
    } else {
        history.push(cmd)
    }
}

/// Adds a command to the session history unless it is the newest entry already.
pub fn remember(history: &mut Vec<String>, cmd: &str)
    ensures
        words::texts(final(history)@) == remembered(words::texts(old(history)@), cmd@),
{
    let n = history.len();
    let ghost before = words::texts(history@);
    if n > 0 && text::same(history[n - 1].as_str(), cmd) {
        return;
    }
    history.push(cmd.to_owned());
    proof {
        assert(words::texts(history@) =~= before.push(cmd@));
    }
}

// ---------------------------------------------------------------------------
// Laws
// ---------------------------------------------------------------------------

/// The bar after `n` presses of Up.
pub open spec fn up_times(v: BarView, history: Seq<Seq<char>>, n: int) -> BarView
    decreases n,
{
    if n <= 0 {
        v
    } else {
        up_times(v, history, n - 1).older(history)
    }
}

/// The bar after `n` presses of Down.
pub open spec fn down_times(v: BarView, history: Seq<Seq<char>>, n: int) -> BarView
    decreases n,
{
    if n <= 0 {
        v
    } else {
        down_times(v, history, n - 1).newer(history)
    }
}

proof fn lemma_up_times(v: BarView, history: Seq<Seq<char>>, n: int)
    requires
        v.pos is None,
        1 <= n <= history.len(),
    ensures
        up_times(v, history, n).pos == Some(history.len() - n),
        up_times(v, history, n).input == history[history.len() - n],
        up_times(v, history, n).saved == v.input,
    decreases n,
{
    if n > 1 {
        lemma_up_times(v, history, n - 1);
    } else {
        assert(up_times(v, history, 0) == v);
    }
}

proof fn lemma_down_times(v: BarView, history: Seq<Seq<char>>, n: int)
    requires
        v.pos matches Some(i) && 0 <= i && i + n < history.len(),
        0 <= n,
    ensures
        down_times(v, history, n).pos == Some(v.pos->Some_0 + n),
        down_times(v, history, n).saved == v.saved,
    decreases n,
{
    if n > 0 {
        lemma_down_times(v, history, n - 1);
    }
}

/// Going up through the history shows its entries, newest first; going down again by
/// as many steps brings the live input back.
pub proof fn law_browsing_keeps_input(v: BarView, history: Seq<Seq<char>>, n: int)
    requires
        v.pos is None,
        1 <= n <= history.len(),
    ensures
        up_times(v, history, n).input == history[history.len() - n],
        down_times(up_times(v, history, n), history, n).input == v.input,
        down_times(up_times(v, history, n), history, n).pos is None,
{
    lemma_up_times(v, history, n);
    lemma_down_times(up_times(v, history, n), history, n - 1);
}

/// A completion begins with what was typed.
pub proof fn law_completion_extends(input: Seq<char>)
    ensures
        completion(input) matches Some(c) ==> text::begins_with(c, input) && c.len() > input.len(),
{
    let found = with_prefix(verbs(), input, verbs().len() as int);
    lemma_with_prefix(verbs(), input, verbs().len() as int);
    if found.len() > 0 {
        let f = found[0]@;
        assert(text::begins_with(f, input));
        reveal_strlit(" ");
        assert((f + " "@).subrange(0, input.len() as int) =~= f.subrange(0, input.len() as int));
        let n = common_len(found, found.len() as int);
        lemma_common_len(found, found.len() as int);
        if n > input.len() {
            assert(f.subrange(0, n).subrange(0, input.len() as int) =~= f.subrange(
                0,
                input.len() as int,
            ));
        }
    }
}

proof fn lemma_with_prefix(all: Seq<&'static str>, input: Seq<char>, n: int)
    ensures
        forall|k: int|
            0 <= k < with_prefix(all, input, n).len() ==> text::begins_with(
                (#[trigger] with_prefix(all, input, n)[k])@,
                input,
            ),
    decreases n,
{
    if n > 0 {
        lemma_with_prefix(all, input, n - 1);
        let before = with_prefix(all, input, n - 1);
        let now = with_prefix(all, input, n);
        assert forall|k: int| 0 <= k < now.len() implies text::begins_with(
            (#[trigger] now[k])@,
            input,
        ) by {
            if k < before.len() {
                assert(now[k] == before[k]);
            }
        }
    }
}

proof fn lemma_common_len(all: Seq<&'static str>, n: int)
    ensures
        0 <= common_len(all, n) <= all[0]@.len(),
    decreases n,
{
    if n > 1 {
        lemma_common_len(all, n - 1);
        lemma_common_from(all[0]@, all[n - 1]@, 0);
    }
}

proof fn lemma_common_from(a: Seq<char>, b: Seq<char>, i: int)
    requires
        0 <= i,
    ensures
        i <= common_from(a, b, i),
        i <= a.len() ==> common_from(a, b, i) <= a.len(),
    decreases a.len() - i,
{
    if i < a.len() && i < b.len() && a[i] == b[i] {
        lemma_common_from(a, b, i + 1);
    }
}

} // verus!
