//! The interactive todo list of `--todo`: its state, its keys and its rows.

use vstd::prelude::*;

use crate::commands::TodoEntry;
use crate::keys::{Key, KeyCode};
use crate::spans::TodoState;
use crate::words;

verus! {

pub struct TodoList {
    pub entries: Vec<TodoEntry>,
    pub selected: usize,
    pub message: Option<String>,
    pub show_all: bool,
}

/// What the list asks for after a key press.
#[derive(Debug, Clone, Copy, PartialEq, Eq, Structural)]
pub enum TodoAction {
    /// Nothing but a redraw.
    Stay,
    Quit,
    /// Toggle the todo of state `state` on the line at `line_byte_start`.
    Toggle { line_byte_start: usize, state: TodoState },
    /// Ask for the text of a new todo.
    Prompt,
}

/// What a key means in the list.
#[derive(Debug, Clone, Copy, PartialEq, Eq, Structural)]
pub enum TodoKey {
    Quit,
    Down,
    Up,
    Toggle,
    Add,
    Nothing,
}

/// `q` or Ctrl+C quits, `j`/`k` and the arrows move, Space or Enter toggles, `+`
/// adds.
pub open spec fn todo_key(key: Key) -> TodoKey {
    match key.code {
        KeyCode::Char(c) => if c == 'q' || (c == 'c' && key.mods.only_ctrl()) {
            TodoKey::Quit
        } else if c == 'j' {
            TodoKey::Down
        } else if c == 'k' {
            TodoKey::Up
        } else if c == ' ' {
            TodoKey::Toggle
        } else if c == '+' {
            TodoKey::Add
        } else {
            TodoKey::Nothing
        },
        KeyCode::Down => TodoKey::Down,
        KeyCode::Up => TodoKey::Up,
        KeyCode::Enter => TodoKey::Toggle,
        _ => TodoKey::Nothing,
    }
}

fn key_meaning(key: Key) -> (r: TodoKey)
    ensures
        r == todo_key(key),
{
    match key.code {
        KeyCode::Char(c) => if c == 'q' || (c == 'c' && key.mods.is_only_ctrl()) {
            TodoKey::Quit
        } else if c == 'j' {
            TodoKey::Down
        } else if c == 'k' {
            TodoKey::Up
        } else if c == ' ' {
            TodoKey::Toggle
        } else if c == '+' {
            TodoKey::Add
        } else {
            TodoKey::Nothing
        },
        KeyCode::Down => TodoKey::Down,
        KeyCode::Up => TodoKey::Up,
        KeyCode::Enter => TodoKey::Toggle,
        _ => TodoKey::Nothing,
    }
}

/// The selection after a key press in a list of `n` rows.
pub open spec fn moved(selected: int, n: int, key: TodoKey) -> int {
    match key {
        TodoKey::Down => if selected + 1 < n {
            selected + 1
        } else {
            selected
        },
        TodoKey::Up => if selected > 0 {
            selected - 1
        } else {
            selected
        },
        _ => selected,
    }
}

/// The first row on screen where `visible` of `n` rows fit.
pub open spec fn first_row(selected: int, n: int, visible: int) -> int {
    if n <= visible {
        0
    } else if selected >= visible / 2 {
        if selected - visible / 2 <= n - visible {
            selected - visible / 2
        } else {
            n - visible
        }
    } else {
        0
    }
}

/// The number of rows that a screen of `height` lines leaves for todos.
pub open spec fn visible_rows(height: int) -> int {
    if height >= 4 {
        height - 4
    } else {
        0
    }
}

/// One row on screen.
#[derive(Debug)]
pub struct TodoRow {
    pub selected: bool,
    pub done: bool,
    /// As in `1) [ ] task   2026-05-12  #oci`.
    pub text: String,
}

/// Characters that a task takes at least, where something follows it.
pub const TASK_WIDTH: usize = 22;

/// Characters of a date.
pub const DATE_WIDTH: usize = 10;

/// The task of an entry, with the date and the tags of its note behind it.
pub open spec fn details(e: TodoEntry) -> Seq<char> {
    if e.date@.len() == 0 && e.tags@.len() == 0 {
        e.text@
    } else {
        words::pad_right(e.text@, TASK_WIDTH as int) + "  "@ + words::pad_right(
            e.date@,
            DATE_WIDTH as int,
        ) + (if e.tags@.len() > 0 {
            "  "@ + e.tags@
        } else {
            Seq::empty()
        })
    }
}

fn details_of(e: &TodoEntry) -> (r: String)
    ensures
        r@ == details(*e),
{
    if e.date.as_str().is_empty() && e.tags.as_str().is_empty() {
        return e.text.as_str().to_owned();
    }
    let mut out = words::padded_right(e.text.as_str(), TASK_WIDTH);
    out.append("  ");
    out.append(words::padded_right(e.date.as_str(), DATE_WIDTH).as_str());
    if !e.tags.as_str().is_empty() {
        out.append("  ");
        out.append(e.tags.as_str());
    }
    proof {
        assert(out@ =~= details(*e));
    }
    out
}

/// The row of entry `i`: number, state, task, and date and tags of its note.
pub open spec fn row_of(r: TodoRow, es: Seq<TodoEntry>, i: int, selected: int) -> bool {
    &&& r.selected == (i == selected)
    &&& r.done == (es[i].state is Done)
    &&& r.text@ == words::decimal((i + 1) as nat) + ") "@ + (if es[i].state is Done {
        "[x]"@
    } else {
        "[ ]"@
    }) + " "@ + details(es[i])
}

/// The screen of the todo list.
pub struct TodoScreen {
    pub title: String,
    pub rows: Vec<TodoRow>,
    pub status: String,
}

/// The status line: a pending message, or the position in the list.
pub open spec fn status_text(l: TodoList) -> Seq<char> {
    match l.message {
        Some(m) => m@,
        None => words::decimal((l.selected + 1) as nat) + "/"@ + words::decimal(l.entries@.len()),
    }
}

impl TodoList {
    /// The selection is a row of the list, if the list has any.
    pub open spec fn wf(self) -> bool {
        self.selected < self.entries@.len() || self.selected == 0
    }

    pub fn new(entries: Vec<TodoEntry>, show_all: bool) -> (r: Self)
        ensures
            r.wf(),
            r.entries@ == entries@,
            r.selected == 0,
            r.message is None,
            r.show_all == show_all,
    {
        TodoList { entries, selected: 0, message: None, show_all }
    }

    /// Handles a key press. The pending message goes away; toggling and adding
    /// are asked for, and answered with `entries_reloaded`. With no todo left
    /// there is nothing to toggle.
    pub fn handle_key(&mut self, key: Key) -> (r: TodoAction)
        requires
            old(self).wf(),
        ensures
            final(self).wf(),
            final(self).entries@ == old(self).entries@,
            final(self).show_all == old(self).show_all,
            final(self).message is None,
            final(self).selected == moved(
                old(self).selected as int,
                old(self).entries@.len() as int,
                todo_key(key),
            ),
            r == (match todo_key(key) {
                TodoKey::Quit => TodoAction::Quit,
                TodoKey::Add => TodoAction::Prompt,
                TodoKey::Toggle => if old(self).selected < old(self).entries@.len() {
                    TodoAction::Toggle {
                        line_byte_start: old(self).entries@[old(
                            self,
                        ).selected as int].line_byte_start,
                        state: old(self).entries@[old(self).selected as int].state,
                    }
                } else {
                    TodoAction::Stay
                },
                _ => TodoAction::Stay,
            }),
    {
        self.message = None;
        match key_meaning(key) {
            TodoKey::Quit => TodoAction::Quit,
            TodoKey::Down => {
                if self.selected < self.entries.len() && self.entries.len() - self.selected > 1 {
                    self.selected = self.selected + 1;
                }
                TodoAction::Stay
            },
            TodoKey::Up => {
                if self.selected > 0 {
                    self.selected = self.selected - 1;
                }
                TodoAction::Stay
            },
            TodoKey::Toggle => if self.selected < self.entries.len() {
                TodoAction::Toggle {
                    line_byte_start: self.entries[self.selected].line_byte_start,
                    state: self.entries[self.selected].state,
                }
            } else {
                TodoAction::Stay
            },
            TodoKey::Add => TodoAction::Prompt,
            TodoKey::Nothing => TodoAction::Stay,
        }
    }

    /// Takes in the rows as the file has them after a toggle or an addition,
    /// and warns if the write met a conflict. A selection past the end moves to
    /// the last row.
    pub fn entries_reloaded(&mut self, entries: Vec<TodoEntry>, warning: Option<&str>)
        ensures
            final(self).wf(),
            final(self).entries@ == entries@,
            final(self).show_all == old(self).show_all,
            final(self).selected == (if old(self).selected < entries@.len() {
                old(self).selected as int
            } else if entries@.len() > 0 {
                entries@.len() - 1
            } else {
                0
            }),
            warning matches Some(w) ==> final(self).message is Some
                && final(self).message->Some_0@ == w@,
            warning is None ==> final(self).message == old(self).message,
    {
        if let Some(w) = warning {
            self.message = Some(w.to_owned());
        }
        if self.selected >= entries.len() {
            self.selected = if entries.len() > 0 {
                entries.len() - 1
            } else {
                0
            };
        }
        self.entries = entries;
    }

    /// The screen for a terminal of `height` lines.
    pub fn screen(&self, height: usize) -> (r: TodoScreen)
        requires
            self.wf(),
        ensures
            r.title@ == "Todos"@ + (if self.show_all {
                " (all)"@
            } else {
                " (open)"@
            }) + "  j/k navigate  Space toggle  + add  q quit"@,
            r.status@ == status_text(*self),
            ({
                let n = self.entries@.len() as int;
                let v = visible_rows(height as int);
                let from = first_row(self.selected as int, n, v);
                &&& r.rows@.len() == if n - from < v {
                    n - from
                } else {
                    v
                }
                &&& forall|k: int|
                    0 <= k < r.rows@.len() ==> row_of(
                        #[trigger] r.rows@[k],
                        self.entries@,
                        from + k,
                        self.selected as int,
                    )
            }),
    {
        let mut title = String::from_str("Todos");
        title.append(
            if self.show_all {
                " (all)"
            } else {
                " (open)"
            },
        );
        title.append("  j/k navigate  Space toggle  + add  q quit");
        let n = self.entries.len();
        let visible: usize = if height >= 4 {
            height - 4
        } else {
            0
        };
        let from: usize = if n <= visible {
            0
        } else if self.selected >= visible / 2 {
            if self.selected - visible / 2 <= n - visible {
                self.selected - visible / 2
            } else {
                n - visible
            }
        } else {
            0
        };
        let count: usize = if n - from < visible {
            n - from
        } else {
            visible
        };
        let mut rows: Vec<TodoRow> = Vec::new();
        let mut k: usize = 0;
        while k < count
            invariant
                k <= count,
                from + count <= n,
                n == self.entries@.len(),
                rows@.len() == k,
                forall|j: int|
                    0 <= j < k ==> row_of(
                        #[trigger] rows@[j],
                        self.entries@,
                        from + j,
                        self.selected as int,
                    ),
            decreases count - k,
        {
            let i = from + k;
            let done = self.entries[i].state == TodoState::Done;
            let mut text = words::decimal_of(i + 1);
            text.append(") ");
            text.append(
                if done {
                    "[x]"
                } else {
                    "[ ]"
                },
            );
            text.append(" ");
            text.append(details_of(&self.entries[i]).as_str());
            rows.push(TodoRow { selected: i == self.selected, done, text });
            k += 1;
        }
        let status = match &self.message {
            Some(m) => m.clone(),
            None => {
                let mut s = words::decimal_of(self.selected + 1);
                s.append("/");
                words::push_decimal(&mut s, n);
                s
            },
        };
        TodoScreen { title, rows, status }
    }
}

/// The selected row is on screen whenever any row is.
pub proof fn law_selection_on_screen(selected: int, n: int, height: int)
    requires
        0 <= selected < n,
        visible_rows(height) > 0,
    ensures
        first_row(selected, n, visible_rows(height)) <= selected < first_row(
            selected,
            n,
            visible_rows(height),
        ) + visible_rows(height),
{
}

} // verus!
