# jotlog

A terminal notes program whose logic is a verified library.

A notes file is plain text. A line that starts with `===` opens a note; `#word` is
a tag; `TODO:`, `DONE:`, `- [ ]` and `- [x]` are todos. The text is the source of
truth: notes, tags, todos and filter results are spans into it, found anew whenever
it changes.

- `src/` is the library, in Verus: the text model and the parser, filters and the
  commands that append to a file, the editor with its undo history, wrapping and
  highlighting, the overlays, the words and the wizard of the spell check, the decisions
  around saving and `git`, and the application as a state machine from keys and
  events to states and actions. Every function states what it returns. What holds
  of several of them together stands in the `law_` functions.
- `tests/` runs the library.
- `app/` is the program around it: the command line, files, the terminal, the
  clipboard, the network and `git`.

The library calls `chrono` for dates and the clock, `unicode-width` for the cells a
character takes, and `symspell` for the dictionary. Each call stands in a small
function marked `external_body`, whose contract says what is taken from the crate.
