//! What the keys of the editor are for, said of the text and the offset of the cursor in
//! it.

use vstd::prelude::*;
use vstd::utf8::*;

use crate::app_rules;
use crate::app_rules::{ActionView, AppView};
use crate::editing;
use crate::editing::EditorView;
use crate::editor_laws;
use crate::history::{Snap, Stacks};
use crate::keys::{Key, KeyCode, Modifiers};
use crate::persistence;
use crate::positions;
use crate::spans;
use crate::text;
use crate::wrap;
use crate::wrap_laws::cells_in;

verus! {

/// How many lines end before offset `p`.
pub open spec fn lines_before(b: Seq<u8>, p: int) -> int
    decreases p,
{
    if p <= 0 {
        0
    } else {
        lines_before(b, p - 1) + if b[p - 1] == 10 {
            1int
        } else {
            0
        }
    }
}

/// A line starts at `p`.
pub open spec fn starts_line(b: Seq<u8>, p: int) -> bool {
    p == 0 || b[p - 1] == 10
}

/// The cursor stands at offset `c`: so many lines below the first, and so many bytes
/// behind the start `p` of its line.
pub open spec fn stands_at(e: EditorView, p: int, c: int) -> bool {
    &&& 0 <= p <= c <= e.bytes.len()
    &&& starts_line(e.bytes, p)
    &&& e.line == lines_before(e.bytes, p)
    &&& e.byte == c - p
}

/// A character ends at `c` and starts at `p`.
pub open spec fn char_between(b: Seq<u8>, p: int, c: int) -> bool {
    &&& 0 <= p < c <= b.len()
    &&& text::on_boundary(b, p)
    &&& text::on_boundary(b, c)
    &&& forall|k: int| p < k < c ==> !#[trigger] text::on_boundary(b, k)
}

/// A line ends with the bytes `b[p..c]`, and the next starts at `c`: a newline, and the
/// carriage returns before it.
pub open spec fn break_between(b: Seq<u8>, p: int, c: int) -> bool {
    &&& 0 <= p < c <= b.len()
    &&& b[c - 1] == 10
    &&& forall|k: int| p <= k < c - 1 ==> #[trigger] b[k] == 13
    &&& p == 0 || b[p - 1] == 10 || b[p - 1] != 13
}

/// The text with the bytes `b[p..q]` replaced.
pub open spec fn replaced(b: Seq<u8>, p: int, q: int, s: Seq<u8>) -> Seq<u8> {
    b.subrange(0, p) + s + b.subrange(q, b.len() as int)
}

/// A key by itself, or with Shift.
pub open spec fn plain(code: KeyCode, shift: bool) -> Key {
    Key { code, mods: Modifiers { ctrl: false, alt: false, shift, meta: false } }
}

/// The editor after a key.
pub open spec fn after(v: AppView, code: KeyCode, shift: bool, stamp: Seq<char>) -> EditorView {
    app_rules::after_key(v, plain(code, shift), stamp).0.editor
}

/// No dialog is open, the cursor stands in the text of its line, and nothing is selected.
pub open spec fn ready(v: AppView) -> bool {
    &&& v.mode is Normal
    &&& editing::state_ok(v.editor)
    &&& editor_laws::on_text(v.editor)
    &&& v.editor.anchor is None
}

/// Which edit or movement a key stands for.
pub proof fn lemma_pressed(v: AppView, code: KeyCode, shift: bool, stamp: Seq<char>)
    requires
        v.mode is Normal,
        !(code is F),
    ensures
        ({
            let e = app_rules::anchored(v.editor, plain(code, shift));
            let q = app_rules::broken(e);
            let w = after(v, code, shift, stamp);
            &&& code == KeyCode::Down ==> w == editing::moved_down(q, 1)
            &&& code == KeyCode::Up ==> w == editing::moved_up(q, 1)
            &&& code == KeyCode::PageDown ==> w == editing::moved_down(q, app_rules::page(e))
            &&& code == KeyCode::PageUp ==> w == editing::moved_up(q, app_rules::page(e))
            &&& code == KeyCode::Left ==> w == editing::with_column(editing::moved_left(q))
            &&& code == KeyCode::Right ==> w == editing::with_column(editing::moved_right(q))
            &&& code == KeyCode::Home ==> w == editing::with_column(editing::at(q, e.line, 0))
            &&& code == KeyCode::End ==> w == editing::with_column(
                editing::at(q, e.line, positions::line_len(e.bytes, e.line)),
            )
            &&& code == KeyCode::Enter ==> w == if editing::unstamped(editing::cursor_line(e)) {
                editing::expanded(e, stamp)
            } else {
                editing::newline_typed(e)
            }
            &&& code == KeyCode::Backspace ==> w == editing::deleted_back(e)
            &&& code == KeyCode::Delete ==> w == editing::deleted_forward(e)
            &&& code == KeyCode::Tab ==> w == editing::typed(e, "    "@)
            &&& code matches KeyCode::Char(c) ==> w == editing::typed(e, seq![c])
        }),
{
    reveal(app_rules::normal_key);
    reveal(app_rules::keyed);
}

// ---------------------------------------------------------------------------
// Offsets
// ---------------------------------------------------------------------------

pub proof fn lemma_lines_before(b: Seq<u8>, l: int)
    requires
        0 <= l < spans::line_starts(b).len(),
    ensures
        lines_before(b, spans::line_starts(b)[l]) == l,
        0 <= spans::line_starts(b)[l] <= b.len(),
        starts_line(b, spans::line_starts(b)[l]),
    decreases l,
{
    spans::lemma_line_starts(b);
    let st = spans::line_starts(b);
    if l > 0 {
        lemma_lines_before(b, l - 1);
        assert(b[st[l] - 1] == 10);
        assert forall|k: int| st[l - 1] <= k < st[l] - 1 implies #[trigger] b[k] != 10 by {
            if b[k] == 10 {
                assert(st.contains(k + 1));
                let x = choose|x: int| 0 <= x < st.len() && st[x] == k + 1;
                if x <= l - 1 {
                    assert(st[x] <= st[l - 1]);
                } else {
                    assert(st[l] <= st[x]);
                }
            }
        }
        lemma_same_count(b, st[l - 1], st[l] - 1);
    }
}

proof fn lemma_same_count(b: Seq<u8>, p: int, q: int)
    requires
        0 <= p <= q,
        forall|k: int| p <= k < q ==> #[trigger] b[k] != 10,
    ensures
        lines_before(b, q) == lines_before(b, p),
    decreases q - p,
{
    if p < q {
        lemma_same_count(b, p, q - 1);
        assert(b[q - 1] != 10);
    }
}

/// The cursor's line and byte are its offset: the line by the newlines before it, the byte
/// by the start of the line.
pub proof fn law_cursor_offset(e: EditorView)
    requires
        editing::state_ok(e),
    ensures
        stands_at(e, editing::cursor(e) - e.byte, editing::cursor(e)),
        text::on_boundary(e.bytes, editing::cursor(e)),
{
    lemma_lines_before(e.bytes, e.line);
}

/// Going to an offset puts the cursor there.
pub proof fn law_jump_goes_there(e: EditorView, off: int)
    requires
        0 <= off <= e.bytes.len(),
    ensures
        editing::cursor(editing::jumped(e, off)) == off,
        editing::cursor(editing::on_top(e, off)) == off,
        editing::on_top(e, off).scroll == editing::on_top(e, off).line,
        stands_at(
            editing::jumped(e, off),
            off - editing::jumped(e, off).byte,
            off,
        ),
{
    positions::lemma_line_at(e.bytes, off);
    lemma_lines_before(e.bytes, positions::line_at(e.bytes, off));
}

/// The text of a line ends where its newline begins.
proof fn lemma_line_end(b: Seq<u8>, l: int)
    requires
        valid_utf8(b),
        0 <= l < spans::line_starts(b).len(),
    ensures
        ({
            let st = spans::line_starts(b);
            let p = st[l] + positions::line_len(b, l);
            &&& st[l] <= p <= b.len()
            &&& text::on_boundary(b, p)
            &&& l + 1 < st.len() ==> break_between(b, p, st[l + 1])
            &&& l + 1 == st.len() ==> forall|k: int|
                p <= k < b.len() ==> #[trigger] b[k] == 13
        }),
{
    let st = spans::line_starts(b);
    spans::lemma_line_starts(b);
    positions::lemma_line_end_ok(b, l);
    let line = wrap::line_of(b, l);
    text::lemma_content_len(line);
    let n = positions::line_len(b, l);
    let p = st[l] + n;
    let q = spans::line_stop(st, b.len() as int, l);
    assert(line.len() == q - st[l]);
    assert forall|k: int| p <= k < q implies #[trigger] b[k] == 10 || b[k] == 13 by {
        assert(line[k - st[l]] == b[k]);
        assert(text::is_newline(line[k - st[l]]));
    }
    assert forall|k: int| st[l] <= k < q - 1 implies #[trigger] b[k] != 10 by {
        if b[k] == 10 {
            assert(st.contains(k + 1));
            let x = choose|x: int| 0 <= x < st.len() && st[x] == k + 1;
            if x <= l {
                assert(st[x] <= st[l]);
            } else if l + 1 < st.len() {
                assert(st[l + 1] <= st[x]);
            }
        }
    }
    if n > 0 {
        assert(line[n - 1] == b[p - 1]);
    } else if l > 0 {
        assert(b[st[l] - 1] == 10);
    }
    if l + 1 < st.len() {
        assert(b[st[l + 1] - 1] == 10);
        assert(p < q) by {
            if p == q {
                assert(line[n - 1] == b[q - 1]);
            }
        }
    } else if p < b.len() && b[b.len() - 1] == 10 {
        assert(st.contains(b.len() as int));
        let x = choose|x: int| 0 <= x < st.len() && st[x] == b.len();
        assert(st[x] <= st[l]);
    }
}

proof fn lemma_prev_char(b: Seq<u8>, l: int, byte: int)
    requires
        valid_utf8(b),
        positions::place_ok(b, l, byte),
        0 < byte <= positions::line_len(b, l),
    ensures
        ({
            let st = spans::line_starts(b)[l];
            let prev = positions::prev_bound(wrap::line_of(b, l), byte);
            0 <= prev < byte && char_between(b, st + prev, st + byte)
        }),
{
    let line = wrap::line_of(b, l);
    wrap::lemma_line_valid(b, l);
    spans::lemma_line_starts(b);
    positions::lemma_line_end_ok(b, l);
    positions::lemma_prev_bound(decode_utf8(line), byte);
    let prev = positions::prev_bound(line, byte);
    positions::lemma_line_boundary(b, l, prev);
    lemma_prev_last(line, byte);
    let st = spans::line_starts(b)[l];
    assert forall|k: int| st + prev < k < st + byte implies !#[trigger] text::on_boundary(b, k) by {
        positions::lemma_line_boundary(b, l, k - st);
        assert(!text::on_boundary(line, k - st));
    }
}

proof fn lemma_prev_last(line: Seq<u8>, i: int)
    requires
        0 < i,
    ensures
        forall|k: int|
            positions::prev_bound(line, i) < k < i ==> !#[trigger] text::on_boundary(line, k),
    decreases i,
{
    if i > 1 && !text::on_boundary(line, i - 1) {
        lemma_prev_last(line, i - 1);
    }
}

proof fn lemma_next_char(b: Seq<u8>, l: int, byte: int)
    requires
        valid_utf8(b),
        positions::place_ok(b, l, byte),
        0 <= byte < positions::line_len(b, l),
    ensures
        ({
            let st = spans::line_starts(b)[l];
            let next = positions::next_bound(wrap::line_of(b, l), byte);
            byte < next <= positions::line_len(b, l) && char_between(b, st + byte, st + next)
        }),
{
    let line = wrap::line_of(b, l);
    wrap::lemma_line_valid(b, l);
    spans::lemma_line_starts(b);
    positions::lemma_line_end_ok(b, l);
    positions::lemma_next_bound(line, byte);
    let next = positions::next_bound(line, byte);
    let n = positions::line_len(b, l);
    positions::lemma_line_boundary(b, l, next);
    positions::lemma_line_boundary(b, l, n);
    lemma_next_first(line, byte);
    let st = spans::line_starts(b)[l];
    assert(next <= n) by {
        if next > n {
            assert(!text::on_boundary(line, n));
        }
    }
    assert forall|k: int| st + byte < k < st + next implies !#[trigger] text::on_boundary(b, k) by {
        positions::lemma_line_boundary(b, l, k - st);
        assert(!text::on_boundary(line, k - st));
    }
}

proof fn lemma_next_first(line: Seq<u8>, i: int)
    requires
        0 <= i < line.len(),
    ensures
        forall|k: int|
            i < k < positions::next_bound(line, i) ==> !#[trigger] text::on_boundary(line, k),
    decreases line.len() - i,
{
    if i + 1 < line.len() && !text::on_boundary(line, i + 1) {
        lemma_next_first(line, i + 1);
    }
}

/// Behind an edit the lines up to it start where they did.
proof fn lemma_keeps_start(b: Seq<u8>, p: int, q: int, s: Seq<u8>, l: int)
    requires
        0 <= p <= q <= b.len(),
        0 <= l < spans::line_starts(b).len(),
        spans::line_starts(b)[l] <= p,
    ensures
        l < spans::line_starts(replaced(b, p, q, s)).len(),
        spans::line_starts(replaced(b, p, q, s))[l] == spans::line_starts(b)[l],
{
    let rest = s + b.subrange(q, b.len() as int);
    assert(replaced(b, p, q, s) =~= b.subrange(0, p) + rest);
    positions::lemma_edit_keeps_line(b, p, rest, l);
}

// ---------------------------------------------------------------------------
// Typing
// ---------------------------------------------------------------------------

/// A character key puts its character in at the cursor, which goes behind it.
pub proof fn law_character_key(v: AppView, c: char, shift: bool, stamp: Seq<char>)
    requires
        ready(v),
    ensures
        ({
            let o = editing::cursor(v.editor);
            let w = after(v, KeyCode::Char(c), shift, stamp);
            &&& w.bytes == replaced(v.editor.bytes, o, o, encode_utf8(seq![c]))
            &&& editing::cursor(w) == o + encode_utf8(seq![c]).len()
            &&& w.dirty
        }),
{
    lemma_pressed(v, KeyCode::Char(c), shift, stamp);
    law_cursor_offset(v.editor);
    let o = editing::cursor(v.editor);
    let e = encode_utf8(seq![c]);
    lemma_keeps_start(v.editor.bytes, o, o, e, v.editor.line);
    assert(replaced(v.editor.bytes, o, o, e) =~= editing::spliced(v.editor.bytes, o, o, seq![c]));
}

/// Tab puts in four spaces.
pub proof fn law_tab_key(v: AppView, stamp: Seq<char>)
    requires
        ready(v),
    ensures
        ({
            let o = editing::cursor(v.editor);
            let w = after(v, KeyCode::Tab, false, stamp);
            &&& w.bytes == replaced(v.editor.bytes, o, o, seq![32u8, 32u8, 32u8, 32u8])
            &&& editing::cursor(w) == o + 4
        }),
{
    lemma_pressed(v, KeyCode::Tab, false, stamp);
    reveal_strlit("    ");
    is_ascii_chars_encode_utf8("    "@);
    assert(encode_utf8("    "@) =~= seq![32u8, 32u8, 32u8, 32u8]);
    law_cursor_offset(v.editor);
    let o = editing::cursor(v.editor);
    lemma_keeps_start(v.editor.bytes, o, o, encode_utf8("    "@), v.editor.line);
    assert(replaced(v.editor.bytes, o, o, encode_utf8("    "@)) =~= editing::spliced(
        v.editor.bytes,
        o,
        o,
        "    "@,
    ));
}

/// The text has a line that ends with a carriage return and a newline.
pub open spec fn has_crlf(b: Seq<u8>) -> bool {
    exists|k: int| 0 <= k < b.len() - 1 && #[trigger] b[k] == 13 && b[k + 1] == 10
}

/// Enter breaks the line at the cursor, with the line ending that the file has, and the
/// cursor goes behind the break. (A delimiter line without a stamp gets one instead.)
pub proof fn law_enter_key(v: AppView, stamp: Seq<char>)
    requires
        ready(v),
        !editing::unstamped(editing::cursor_line(v.editor)),
    ensures
        ({
            let b = v.editor.bytes;
            let o = editing::cursor(v.editor);
            let w = after(v, KeyCode::Enter, false, stamp);
            let ending = if has_crlf(b) {
                seq![13u8, 10u8]
            } else {
                seq![10u8]
            };
            &&& w.bytes == replaced(b, o, o, ending)
            &&& editing::cursor(w) == o + ending.len()
            &&& w.byte == 0
            &&& w.dirty
        }),
{
    lemma_pressed(v, KeyCode::Enter, false, stamp);
    let b = v.editor.bytes;
    let o = editing::cursor(v.editor);
    law_cursor_offset(v.editor);
    lemma_ending(b);
    let nl = editing::newline_of(v.editor);
    let e = encode_utf8(nl);
    assert(replaced(b, o, o, e) =~= editing::spliced(b, o, o, nl));
    assert forall|k: int| spans::line_starts(b)[v.editor.line] <= k < o implies #[trigger] b[k]
        != 10 by {
        lemma_no_break(v.editor, k + 1);
    }
    lemma_broken_line(b, o, e, v.editor.line);
}

/// A break put in makes the text behind it the next line.
proof fn lemma_broken_line(b: Seq<u8>, o: int, e: Seq<u8>, l: int)
    requires
        0 <= l < spans::line_starts(b).len(),
        spans::line_starts(b)[l] <= o <= b.len(),
        forall|k: int| spans::line_starts(b)[l] <= k < o ==> #[trigger] b[k] != 10,
        e == seq![13u8, 10u8] || e == seq![10u8],
    ensures
        l + 1 < spans::line_starts(replaced(b, o, o, e)).len(),
        spans::line_starts(replaced(b, o, o, e))[l + 1] == o + e.len(),
{
    let c = replaced(b, o, o, e);
    spans::lemma_line_starts(b);
    lemma_keeps_start(b, o, o, e, l);
    spans::lemma_line_starts(c);
    let st = spans::line_starts(c);
    let x = o + e.len();
    assert(c[x - 1] == 10) by {
        assert(c[x - 1] == e[e.len() - 1]);
    }
    assert(st.contains(x - 1 + 1));
    let k = choose|k: int| 0 <= k < st.len() && st[k] == x;
    if k <= l {
        assert(st[k] <= st[l]);
    } else if k > l + 1 {
        let y = st[l + 1];
        assert(st[l] < y < x);
        assert(c[y - 1] == 10);
        if y - 1 < o {
            assert(c[y - 1] == b[y - 1]);
        } else {
            assert(c[y - 1] == e[y - 1 - o]);
        }
    }
}

/// Between the start of the cursor's line and the cursor no line ends.
proof fn lemma_no_break(e: EditorView, y: int)
    requires
        editing::state_ok(e),
        editor_laws::on_text(e),
    ensures
        spans::line_starts(e.bytes)[e.line] < y <= editing::cursor(e) ==> e.bytes[y - 1] != 10,
{
    let b = e.bytes;
    let st = spans::line_starts(b);
    spans::lemma_line_starts(b);
    lemma_line_end(b, e.line);
    if st[e.line] < y <= editing::cursor(e) && b[y - 1] == 10 {
        assert(st.contains(y - 1 + 1));
        let x = choose|x: int| 0 <= x < st.len() && st[x] == y;
        if x <= e.line {
            assert(st[x] <= st[e.line]);
        } else {
            assert(st[e.line + 1] <= st[x]);
        }
    }
}

pub proof fn lemma_ending(b: Seq<u8>)
    requires
        valid_utf8(b),
    ensures
        ({
            let nl = persistence::line_ending(decode_utf8(b));
            encode_utf8(nl) == if has_crlf(b) {
                seq![13u8, 10u8]
            } else {
                seq![10u8]
            }
        }),
{
    decode_utf8_encode_utf8(b);
    reveal_strlit("\r\n");
    reveal_strlit("\n");
    is_ascii_chars_encode_utf8("\r\n"@);
    is_ascii_chars_encode_utf8("\n"@);
    let e = encode_utf8("\r\n"@);
    assert(e =~= seq![13u8, 10u8]);
    assert(encode_utf8("\n"@) =~= seq![10u8]);
    if has_crlf(b) {
        let k = choose|k: int| 0 <= k < b.len() - 1 && #[trigger] b[k] == 13 && b[k + 1] == 10;
        assert(b.subrange(k, k + 2) =~= e);
        assert(text::occurs_at(b, k, e));
    }
    if text::contains_seq(b, e) {
        let k = choose|k: int| #[trigger] text::occurs_at(b, k, e);
        assert(b.subrange(k, k + 2)[0] == b[k] && b.subrange(k, k + 2)[1] == b[k + 1]);
    }
}

// ---------------------------------------------------------------------------
// Deleting
// ---------------------------------------------------------------------------

/// Backspace takes away the character before the cursor; at the start of a line the break
/// before it, with all its bytes; at the start of the text nothing.
pub proof fn law_backspace_key(v: AppView, stamp: Seq<char>, p: int)
    requires
        ready(v),
        ({
            let o = editing::cursor(v.editor);
            v.editor.byte > 0 && char_between(v.editor.bytes, p, o) || v.editor.byte == 0
                && break_between(v.editor.bytes, p, o) || p == 0 && o == 0
        }),
    ensures
        ({
            let o = editing::cursor(v.editor);
            let w = after(v, KeyCode::Backspace, false, stamp);
            &&& w.bytes == replaced(v.editor.bytes, p, o, Seq::empty())
            &&& editing::cursor(w) == p
        }),
{
    lemma_pressed(v, KeyCode::Backspace, false, stamp);
    let e = v.editor;
    let b = e.bytes;
    let o = editing::cursor(e);
    let st = spans::line_starts(b);
    law_cursor_offset(e);
    spans::lemma_line_starts(b);
    assert(encode_utf8(Seq::<char>::empty()) =~= Seq::<u8>::empty());
    if e.byte > 0 {
        lemma_prev_char(b, e.line, e.byte);
        let prev = st[e.line] + positions::prev_bound(wrap::line_of(b, e.line), e.byte);
        assert(prev == p) by {
            if prev < p {
                assert(!text::on_boundary(b, p));
            } else if p < prev {
                assert(!text::on_boundary(b, prev));
            }
        }
        assert(replaced(b, p, o, Seq::empty()) =~= editing::spliced(b, p, o, Seq::empty()));
        lemma_keeps_start(b, p, o, Seq::empty(), e.line);
    } else if e.line > 0 {
        lemma_line_end(b, e.line - 1);
        let end = st[e.line - 1] + positions::line_len(b, e.line - 1);
        lemma_break_unique(b, end, p, o);
        assert(replaced(b, p, o, Seq::empty()) =~= editing::spliced(b, p, o, Seq::empty()));
        lemma_keeps_start(b, p, o, Seq::empty(), e.line - 1);
    } else {
        assert(replaced(b, 0, 0, Seq::empty()) =~= b);
    }
}

proof fn lemma_break_unique(b: Seq<u8>, p: int, q: int, c: int)
    requires
        break_between(b, p, c),
        break_between(b, q, c),
    ensures
        p == q,
{
    if p < q {
        assert(b[q - 1] == 13);
    } else if q < p {
        assert(b[p - 1] == 13);
    }
}

/// Delete takes away the character behind the cursor; at the end of a line's text the
/// break behind it.
pub proof fn law_delete_key(v: AppView, stamp: Seq<char>, q: int)
    requires
        ready(v),
        ({
            let o = editing::cursor(v.editor);
            let b = v.editor.bytes;
            if v.editor.byte < positions::line_len(b, v.editor.line) {
                char_between(b, o, q)
            } else {
                break_between(b, o, q)
            }
        }),
    ensures
        ({
            let o = editing::cursor(v.editor);
            let w = after(v, KeyCode::Delete, false, stamp);
            &&& w.bytes == replaced(v.editor.bytes, o, q, Seq::empty())
            &&& editing::cursor(w) == o
        }),
{
    lemma_pressed(v, KeyCode::Delete, false, stamp);
    let e = v.editor;
    let b = e.bytes;
    let o = editing::cursor(e);
    let st = spans::line_starts(b);
    law_cursor_offset(e);
    spans::lemma_line_starts(b);
    assert(encode_utf8(Seq::<char>::empty()) =~= Seq::<u8>::empty());
    lemma_line_end(b, e.line);
    lemma_keeps_start(b, o, q, Seq::empty(), e.line);
    assert(replaced(b, o, q, Seq::empty()) =~= editing::spliced(b, o, q, Seq::empty()));
    if e.byte < positions::line_len(b, e.line) {
        lemma_next_char(b, e.line, e.byte);
        let next = st[e.line] + positions::next_bound(wrap::line_of(b, e.line), e.byte);
        assert(next == q) by {
            if next < q {
                assert(!text::on_boundary(b, next));
            } else if q < next {
                assert(!text::on_boundary(b, q));
            }
        }
    } else {
        lemma_break_follows(b, e.line, o, q);
    }
}

/// A break at the end of a line's text ends where the next line starts.
proof fn lemma_break_follows(b: Seq<u8>, l: int, o: int, q: int)
    requires
        valid_utf8(b),
        0 <= l < spans::line_starts(b).len(),
        o == spans::line_starts(b)[l] + positions::line_len(b, l),
        break_between(b, o, q),
    ensures
        l + 1 < spans::line_starts(b).len(),
        spans::line_starts(b)[l + 1] == q,
{
    let st = spans::line_starts(b);
    spans::lemma_line_starts(b);
    lemma_line_end(b, l);
    assert(st.contains(q - 1 + 1));
    let x = choose|x: int| 0 <= x < st.len() && st[x] == q;
    if x <= l {
        assert(st[x] <= st[l]);
    } else if x > l + 1 {
        assert(st[l + 1] < st[x]);
        assert(b[st[l + 1] - 1] == 10);
        assert(b[st[l + 1] - 1] == 13);
    }
}

// ---------------------------------------------------------------------------
// Moving along the text
// ---------------------------------------------------------------------------

/// Left goes before the character before the cursor; at the start of a line before the
/// break; at the start of the text nowhere.
pub proof fn law_left_key(v: AppView, shift: bool, stamp: Seq<char>, p: int)
    requires
        ready(v),
        ({
            let o = editing::cursor(v.editor);
            v.editor.byte > 0 && char_between(v.editor.bytes, p, o) || v.editor.byte == 0
                && break_between(v.editor.bytes, p, o) || p == 0 && o == 0
        }),
    ensures
        ({
            let w = after(v, KeyCode::Left, shift, stamp);
            &&& w.bytes == v.editor.bytes
            &&& editing::cursor(w) == p
        }),
{
    lemma_pressed(v, KeyCode::Left, shift, stamp);
    let e = v.editor;
    let b = e.bytes;
    let o = editing::cursor(e);
    let st = spans::line_starts(b);
    law_cursor_offset(e);
    spans::lemma_line_starts(b);
    if e.byte > 0 {
        lemma_prev_char(b, e.line, e.byte);
        let prev = st[e.line] + positions::prev_bound(wrap::line_of(b, e.line), e.byte);
        assert(prev == p) by {
            if prev < p {
                assert(!text::on_boundary(b, p));
            } else if p < prev {
                assert(!text::on_boundary(b, prev));
            }
        }
    } else if e.line > 0 {
        lemma_line_end(b, e.line - 1);
        let end = st[e.line - 1] + positions::line_len(b, e.line - 1);
        lemma_break_unique(b, end, p, o);
    }
}

/// Right goes behind the character behind the cursor; at the end of a line's text behind
/// the break.
pub proof fn law_right_key(v: AppView, shift: bool, stamp: Seq<char>, q: int)
    requires
        ready(v),
        ({
            let o = editing::cursor(v.editor);
            let b = v.editor.bytes;
            if v.editor.byte < positions::line_len(b, v.editor.line) {
                char_between(b, o, q)
            } else {
                break_between(b, o, q)
            }
        }),
    ensures
        ({
            let w = after(v, KeyCode::Right, shift, stamp);
            &&& w.bytes == v.editor.bytes
            &&& editing::cursor(w) == q
        }),
{
    lemma_pressed(v, KeyCode::Right, shift, stamp);
    let e = v.editor;
    let b = e.bytes;
    let o = editing::cursor(e);
    let st = spans::line_starts(b);
    law_cursor_offset(e);
    spans::lemma_line_starts(b);
    if e.byte < positions::line_len(b, e.line) {
        lemma_next_char(b, e.line, e.byte);
        let next = st[e.line] + positions::next_bound(wrap::line_of(b, e.line), e.byte);
        assert(next == q) by {
            if next < q {
                assert(!text::on_boundary(b, next));
            } else if q < next {
                assert(!text::on_boundary(b, q));
            }
        }
    } else {
        lemma_break_follows(b, e.line, o, q);
    }
}

/// `[h, e)` is the text of a line: what follows is a break or the end of the file.
pub open spec fn text_of_line(b: Seq<u8>, h: int, e: int) -> bool {
    &&& 0 <= h <= e <= b.len()
    &&& starts_line(b, h)
    &&& forall|k: int| h <= k < e ==> #[trigger] b[k] != 10
    &&& e > h ==> b[e - 1] != 13
    &&& forall|k: int| e <= k < b.len() && only_returns(b, e, k) ==> (#[trigger] b[k]) == 13 || b[k]
        == 10
}

/// Carriage returns only.
pub open spec fn only_returns(b: Seq<u8>, e: int, k: int) -> bool {
    forall|j: int| e <= j < k ==> #[trigger] b[j] == 13
}

proof fn lemma_text_of_line(b: Seq<u8>, l: int)
    requires
        valid_utf8(b),
        0 <= l < spans::line_starts(b).len(),
    ensures
        text_of_line(
            b,
            spans::line_starts(b)[l],
            spans::line_starts(b)[l] + positions::line_len(b, l),
        ),
{
    let st = spans::line_starts(b);
    spans::lemma_line_starts(b);
    lemma_lines_before(b, l);
    lemma_line_end(b, l);
    let line = wrap::line_of(b, l);
    text::lemma_content_len(line);
    let n = positions::line_len(b, l);
    let end = st[l] + n;
    if n > 0 {
        assert(line[n - 1] == b[end - 1]);
    }
    assert forall|k: int| st[l] <= k < end implies #[trigger] b[k] != 10 by {
        if b[k] == 10 {
            assert(st.contains(k + 1));
            let x = choose|x: int| 0 <= x < st.len() && st[x] == k + 1;
            if x <= l {
                assert(st[x] <= st[l]);
            } else {
                assert(st[l + 1] <= st[x]);
            }
        }
    }
    assert forall|k: int| end <= k < b.len() && only_returns(b, end, k) implies (#[trigger] b[k]) == 13
        || b[k] == 10 by {
        if l + 1 < st.len() && k >= st[l + 1] {
            assert(b[st[l + 1] - 1] == 10);
            assert(b[st[l + 1] - 1] == 13);
        }
    }
}

/// Home goes to the start of the line, End to the end of its text.
pub proof fn law_home_and_end_keys(v: AppView, shift: bool, stamp: Seq<char>)
    requires
        ready(v),
    ensures
        ({
            let o = editing::cursor(v.editor);
            let h = editing::cursor(after(v, KeyCode::Home, shift, stamp));
            let e = editing::cursor(after(v, KeyCode::End, shift, stamp));
            h <= o <= e && text_of_line(v.editor.bytes, h, e)
        }),
{
    lemma_pressed(v, KeyCode::Home, shift, stamp);
    lemma_pressed(v, KeyCode::End, shift, stamp);
    lemma_text_of_line(v.editor.bytes, v.editor.line);
}

// ---------------------------------------------------------------------------
// Moving between lines
// ---------------------------------------------------------------------------

/// Byte `byte` of `content` is at column `col`: as much of the text fits before it as the
/// column allows.
pub open spec fn at_column(content: Seq<char>, byte: int, col: int) -> bool {
    exists|k: int|
        0 <= k <= content.len() && byte == #[trigger] text::byte_offset(content, k) && cells_in(
            content,
            0,
            k,
        ) <= col && (k < content.len() ==> cells_in(content, 0, k + 1) > col)
}

proof fn lemma_fitting(s: Seq<char>, i: int, room: int)
    requires
        0 <= i <= s.len(),
        room >= 0,
    ensures
        ({
            let k = wrap::fitting(s, i, room);
            &&& i <= k <= s.len()
            &&& cells_in(s, 0, k) - cells_in(s, 0, i) <= room
            &&& k < s.len() ==> cells_in(s, 0, k + 1) - cells_in(s, 0, i) > room
        }),
    decreases s.len() - i,
{
    if i < s.len() && wrap::cells(s[i]) <= room {
        assert(cells_in(s, 0, i + 1) == cells_in(s, 0, i) + wrap::cells(s[i]));
        lemma_fitting(s, i + 1, room - wrap::cells(s[i]));
    } else if i < s.len() {
        assert(cells_in(s, 0, i + 1) == cells_in(s, 0, i) + wrap::cells(s[i]));
    }
}

pub proof fn lemma_byte_at_column(b: Seq<u8>, l: int, col: int)
    requires
        valid_utf8(b),
        0 <= l < spans::line_starts(b).len(),
        col >= 0,
    ensures
        at_column(
            wrap::line_chars(b, l),
            editing::byte_at_column(decode_utf8(wrap::line_of(b, l)), col),
            col,
        ),
{
    wrap::lemma_line_valid(b, l);
    let c = wrap::line_chars(b, l);
    lemma_fitting(c, 0, col);
    let k = wrap::fitting(c, 0, col);
    assert(cells_in(c, 0, 0) == 0);
    assert(text::byte_offset(c, k) == editing::byte_at_column(decode_utf8(wrap::line_of(b, l)), col));
}

/// Without wrapping, Down and Up go one line down and up, as far as there is one, to the
/// column that was aimed at, and go on aiming at it.
pub proof fn law_down_and_up_keys(v: AppView, shift: bool, stamp: Seq<char>)
    requires
        ready(v),
        !v.editor.wrap,
        v.editor.col >= 0,
    ensures
        ({
            let e = v.editor;
            let n = spans::line_starts(e.bytes).len();
            let d = after(v, KeyCode::Down, shift, stamp);
            let u = after(v, KeyCode::Up, shift, stamp);
            &&& d.line == if e.line + 1 < n {
                e.line + 1
            } else {
                e.line
            }
            &&& u.line == if e.line > 0 {
                e.line - 1
            } else {
                e.line
            }
            &&& at_column(wrap::line_chars(e.bytes, d.line), d.byte, e.col)
            &&& at_column(wrap::line_chars(e.bytes, u.line), u.byte, e.col)
            &&& d.col == e.col && u.col == e.col
            &&& d.bytes == e.bytes && u.bytes == e.bytes
        }),
{
    lemma_pressed(v, KeyCode::Down, shift, stamp);
    lemma_pressed(v, KeyCode::Up, shift, stamp);
    let e = v.editor;
    let n = spans::line_starts(e.bytes).len();
    lemma_byte_at_column(e.bytes, e.line, e.col);
    if e.line + 1 < n {
        lemma_byte_at_column(e.bytes, e.line + 1, e.col);
    }
    if e.line > 0 {
        lemma_byte_at_column(e.bytes, e.line - 1, e.col);
    }
}

/// Without wrapping, the page keys go as many lines down and up as the screen has rows, but
/// for two, or to the last or first line.
pub proof fn law_page_keys(v: AppView, shift: bool, stamp: Seq<char>)
    requires
        ready(v),
        !v.editor.wrap,
        v.editor.col >= 0,
        v.editor.height >= 2,
    ensures
        ({
            let e = v.editor;
            let n = spans::line_starts(e.bytes).len();
            let d = after(v, KeyCode::PageDown, shift, stamp);
            let u = after(v, KeyCode::PageUp, shift, stamp);
            &&& d.line == if e.line + e.height - 2 < n {
                e.line + e.height - 2
            } else {
                n - 1
            }
            &&& u.line == if e.line >= e.height - 2 {
                e.line - (e.height - 2)
            } else {
                0
            }
            &&& at_column(wrap::line_chars(e.bytes, d.line), d.byte, e.col)
            &&& at_column(wrap::line_chars(e.bytes, u.line), u.byte, e.col)
            &&& d.col == e.col && u.col == e.col
            &&& d.bytes == e.bytes && u.bytes == e.bytes
        }),
{
    lemma_pressed(v, KeyCode::PageDown, shift, stamp);
    lemma_pressed(v, KeyCode::PageUp, shift, stamp);
    let e = v.editor;
    let d = after(v, KeyCode::PageDown, shift, stamp);
    let u = after(v, KeyCode::PageUp, shift, stamp);
    lemma_byte_at_column(e.bytes, d.line, e.col);
    lemma_byte_at_column(e.bytes, u.line, e.col);
}

/// The rows of line `l` on the screen, as byte ranges.
pub open spec fn rows_of(e: EditorView, l: int) -> Seq<(int, int)> {
    let c = wrap::line_chars(e.bytes, l);
    wrap::rows(
        c,
        if e.width > 1 {
            e.width
        } else {
            1
        },
    ).map_values(|r: (int, int)| (text::byte_offset(c, r.0), text::byte_offset(c, r.1)))
}

/// The cursor is on row `k` of its line: the first that holds it.
pub open spec fn on_row(e: EditorView, k: int) -> bool {
    let rs = rows_of(e, e.line);
    &&& 0 <= k < rs.len()
    &&& rs[k].0 <= e.byte <= rs[k].1
    &&& forall|j: int| 0 <= j < k ==> !((#[trigger] rs[j]).0 <= e.byte <= rs[j].1)
}

/// The cursor is at column `col` of row `row` of its line.
pub open spec fn in_row(e: EditorView, row: (int, int), col: int) -> bool {
    let c = wrap::line_chars(e.bytes, e.line);
    let t = decode_utf8(encode_utf8(c).subrange(row.0, row.1));
    at_column(wrap::content_chars(t), e.byte - row.0, col)
}

proof fn lemma_row_holding(rs: Seq<(int, int)>, i: int, byte: int, k: int)
    requires
        0 <= i <= k < rs.len(),
        rs[k].0 <= byte <= rs[k].1,
        forall|j: int| i <= j < k ==> !((#[trigger] rs[j]).0 <= byte <= rs[j].1),
    ensures
        editing::row_holding(rs, i, byte) == Some(k),
    decreases k - i,
{
    if i < k {
        lemma_row_holding(rs, i + 1, byte, k);
    }
}

/// With wrapping, Down goes to the next row of the line on the screen, from its last row to
/// the first row of the next line, to the column that was aimed at; from the last row of
/// the text it goes nowhere. Up goes the other way.
pub proof fn law_down_and_up_by_rows(v: AppView, shift: bool, stamp: Seq<char>, k: int)
    requires
        ready(v),
        v.editor.wrap,
        v.editor.col >= 0,
        on_row(v.editor, k),
    ensures
        ({
            let e = v.editor;
            let n = spans::line_starts(e.bytes).len();
            let rs = rows_of(e, e.line);
            let d = after(v, KeyCode::Down, shift, stamp);
            let u = after(v, KeyCode::Up, shift, stamp);
            &&& if k + 1 < rs.len() {
                d.line == e.line && in_row(d, rs[k + 1], e.col)
            } else if e.line + 1 < n {
                d.line == e.line + 1 && in_row(d, rows_of(e, e.line + 1)[0], e.col)
            } else {
                d.line == e.line && d.byte == e.byte
            }
            &&& if k > 0 {
                u.line == e.line && in_row(u, rs[k - 1], e.col)
            } else if e.line > 0 {
                u.line == e.line - 1 && in_row(u, rows_of(e, e.line - 1).last(), e.col)
            } else {
                u.line == e.line && u.byte == e.byte
            }
            &&& d.col == e.col && u.col == e.col
            &&& d.bytes == e.bytes && u.bytes == e.bytes
        }),
{
    lemma_pressed(v, KeyCode::Down, shift, stamp);
    lemma_pressed(v, KeyCode::Up, shift, stamp);
    reveal_with_fuel(editing::steps, 2);
    let e = v.editor;
    lemma_row_holding(rows_of(e, e.line), 0, e.byte, k);
    assert(editing::byte_rows(wrap::line_chars(e.bytes, e.line), editing::row_width(e)) == rows_of(
        e,
        e.line,
    ));
    let b = app_rules::broken(app_rules::anchored(e, plain(KeyCode::Down, shift)));
    let c = app_rules::broken(app_rules::anchored(e, plain(KeyCode::Up, shift)));
    assert(editing::next_row(b, true) == editing::next_row(e, true));
    assert(editing::next_row(c, false) == editing::next_row(e, false));
    if let Some((line, row)) = editing::next_row(e, true) {
        lemma_row_column(e.bytes, line, row, e.col);
    }
    if let Some((line, row)) = editing::next_row(e, false) {
        lemma_row_column(e.bytes, line, row, e.col);
    }
}

proof fn lemma_row_column(b: Seq<u8>, l: int, row: (int, int), col: int)
    requires
        col >= 0,
    ensures
        ({
            let t = editing::row_text(wrap::line_chars(b, l), row);
            at_column(wrap::content_chars(t), editing::byte_at_column(t, col), col)
        }),
{
    let t = editing::row_text(wrap::line_chars(b, l), row);
    let c = wrap::content_chars(t);
    lemma_fitting(c, 0, col);
    assert(cells_in(c, 0, 0) == 0);
    assert(text::byte_offset(c, wrap::fitting(c, 0, col)) == editing::byte_at_column(t, col));
}

// ---------------------------------------------------------------------------
// Selecting
// ---------------------------------------------------------------------------

/// A key that moves the cursor.
pub open spec fn moves(code: KeyCode) -> bool {
    code == KeyCode::Left || code == KeyCode::Right || code == KeyCode::Up || code
        == KeyCode::Down || code == KeyCode::Home || code == KeyCode::End || code
        == KeyCode::PageUp || code == KeyCode::PageDown
}

/// Moving with Shift selects from where the cursor was when it began; moving without
/// selects nothing.
pub proof fn law_shift_selects(v: AppView, code: KeyCode, stamp: Seq<char>)
    requires
        v.mode is Normal,
        moves(code),
    ensures
        after(v, code, true, stamp).anchor == match v.editor.anchor {
            Some(a) => Some(a),
            None => Some((v.editor.line, v.editor.byte)),
        },
        after(v, code, false, stamp).anchor is None,
{
    lemma_pressed(v, code, true, stamp);
    lemma_pressed(v, code, false, stamp);
    lemma_moves_keep_anchor(app_rules::broken(app_rules::anchored(v.editor, plain(code, true))));
    lemma_moves_keep_anchor(app_rules::broken(app_rules::anchored(v.editor, plain(code, false))));
}

proof fn lemma_moves_keep_anchor(e: EditorView)
    ensures
        forall|n: int| (#[trigger] editing::moved_down(e, n)).anchor == e.anchor,
        forall|n: int| (#[trigger] editing::moved_up(e, n)).anchor == e.anchor,
        editing::moved_left(e).anchor == e.anchor,
        editing::moved_right(e).anchor == e.anchor,
{
    assert forall|n: int| (#[trigger] editing::moved_down(e, n)).anchor == e.anchor by {
        lemma_steps_keep_anchor(e, true, n);
    }
    assert forall|n: int| (#[trigger] editing::moved_up(e, n)).anchor == e.anchor by {
        lemma_steps_keep_anchor(e, false, n);
    }
}

proof fn lemma_steps_keep_anchor(e: EditorView, down: bool, n: int)
    ensures
        editing::steps(e, down, n).anchor == e.anchor,
    decreases n,
{
    if n > 0 {
        if let Some(w) = editing::stepped(e, down) {
            lemma_steps_keep_anchor(w, down, n - 1);
        }
    }
}

/// What is selected is the text between the cursor and the place where the selection was
/// begun, whichever comes first. `p` is the start of that place's line.
pub proof fn law_selection_is_between(e: EditorView, p: int, a: int)
    requires
        editing::state_ok(e),
        e.anchor matches Some((l, byte)) && 0 <= p <= a <= e.bytes.len() && starts_line(e.bytes, p)
            && l == lines_before(e.bytes, p) && byte == a - p,
        text::on_boundary(e.bytes, a),
    ensures
        ({
            let c = editing::cursor(e);
            editing::selection(e) == if a < c {
                Some((a, c))
            } else if c < a {
                Some((c, a))
            } else {
                None
            }
        }),
{
    let b = e.bytes;
    let st = spans::line_starts(b);
    spans::lemma_line_starts(b);
    assert(st.contains(p)) by {
        if p > 0 {
            assert(b[p - 1] == 10);
            assert(st.contains(p - 1 + 1));
        } else {
            assert(st[0] == 0);
        }
    }
    let x = choose|x: int| 0 <= x < st.len() && st[x] == p;
    lemma_lines_before(b, x);
}

/// Copying and cutting take exactly the selected text; a cut leaves the rest, with the
/// cursor where the text was; a paste puts text in its place.
pub proof fn law_copy_cut_paste(v: AppView, stamp: Seq<char>, s: Seq<char>, a: int, z: int)
    requires
        v.mode is Normal,
        editing::state_ok(v.editor),
        editing::selection(v.editor) == Some((a, z)),
    ensures
        ({
            let b = v.editor.bytes;
            let ctrl = |c: char|
                Key {
                    code: KeyCode::Char(c),
                    mods: Modifiers { ctrl: true, alt: false, shift: false, meta: false },
                };
            let t = decode_utf8(b.subrange(a, z));
            &&& app_rules::after_key(v, ctrl('c'), stamp).1 == ActionView::Copy(t)
            &&& app_rules::after_key(v, ctrl('x'), stamp).1 == ActionView::Cut(t)
            &&& editing::pasted(v.editor, s).bytes == replaced(b, a, z, encode_utf8(s))
            &&& editing::cursor(editing::pasted(v.editor, s)) == a + encode_utf8(s).len()
            &&& editing::replaced(v.editor, Seq::empty()).bytes == replaced(b, a, z, Seq::empty())
            &&& editing::cursor(editing::replaced(v.editor, Seq::empty())) == a
        }),
{
    reveal(app_rules::normal_key);
    reveal(app_rules::control_key);
    let b = v.editor.bytes;
    editor_laws::law_selection_in_text(v.editor);
    let e = encode_utf8(s);
    assert(encode_utf8(Seq::<char>::empty()) =~= Seq::<u8>::empty());
    assert(editing::spliced(b, a, z, s) =~= replaced(b, a, z, e));
    assert(editing::spliced(b, a, z, Seq::empty()) =~= replaced(b, a, z, Seq::empty()));
    let n = replaced(b, a, z, e);
    assert(n.len() == a + e.len() + (b.len() - z));
    law_jump_goes_there(editing::edited(editing::entered(v.editor), a, z, s), a + e.len());
    law_jump_goes_there(editing::edited(editing::entered(v.editor), a, z, Seq::empty()), a);
}

/// What is typed or pasted over a selection takes its place.
#[verifier::spinoff_prover]
pub proof fn law_typing_over_selection(
    v: AppView,
    c: char,
    shift: bool,
    stamp: Seq<char>,
    a: int,
    z: int,
)
    requires
        v.mode is Normal,
        editing::state_ok(v.editor),
        editing::selection(v.editor) == Some((a, z)),
    ensures
        ({
            let b = v.editor.bytes;
            let t = after(v, KeyCode::Char(c), shift, stamp);
            let x = after(v, KeyCode::Backspace, false, stamp);
            let d = after(v, KeyCode::Delete, false, stamp);
            &&& t.bytes == replaced(b, a, z, encode_utf8(seq![c]))
            &&& editing::cursor(t) == a + encode_utf8(seq![c]).len()
            &&& t.anchor is None
            &&& x.bytes == replaced(b, a, z, Seq::empty()) && editing::cursor(x) == a
            &&& d.bytes == replaced(b, a, z, Seq::empty()) && editing::cursor(d) == a
        }),
{
    lemma_pressed(v, KeyCode::Char(c), shift, stamp);
    lemma_pressed(v, KeyCode::Backspace, false, stamp);
    lemma_pressed(v, KeyCode::Delete, false, stamp);
    law_copy_cut_paste(v, stamp, seq![c], a, z);
    let e = v.editor;
    assert(app_rules::anchored(e, plain(KeyCode::Char(c), shift)) == e);
    assert(app_rules::anchored(e, plain(KeyCode::Backspace, false)) == e);
    assert(app_rules::anchored(e, plain(KeyCode::Delete, false)) == e);
    assert(editing::typed(e, seq![c]) == editing::pasted(e, seq![c]));
    assert(editing::deleted_back(e) == editing::replaced(e, Seq::empty()));
    assert(editing::deleted_forward(e) == editing::replaced(e, Seq::empty()));
    assert(editing::pasted(e, seq![c]).anchor is None);
}

/// What is pasted with nothing selected goes in at the cursor, which goes behind it.
pub proof fn law_paste_at_cursor(e: EditorView, s: Seq<char>)
    requires
        editing::state_ok(e),
        editing::selection(e) is None,
    ensures
        ({
            let o = editing::cursor(e);
            &&& editing::pasted(e, s).bytes == replaced(e.bytes, o, o, encode_utf8(s))
            &&& editing::cursor(editing::pasted(e, s)) == o + encode_utf8(s).len()
        }),
{
    law_cursor_offset(e);
    let o = editing::cursor(e);
    assert(editing::spliced(e.bytes, o, o, s) =~= replaced(e.bytes, o, o, encode_utf8(s)));
    let u = editing::edited(editing::entered(editing::unselected(e)), o, o, s);
    assert(u.bytes.len() == e.bytes.len() + encode_utf8(s).len());
    law_jump_goes_there(u, o + encode_utf8(s).len());
}

// ---------------------------------------------------------------------------
// Undo
// ---------------------------------------------------------------------------

/// Up to a thousand edits can be undone, the oldest is forgotten first: an edit adds its
/// entry to those before, and makes what was undone go.
pub proof fn law_edits_are_kept(h: Stacks, s: Snap)
    requires
        h.undo.len() <= 1000,
    ensures
        h.undo.len() < 1000 ==> h.pushed(s).undo == h.undo.push(s),
        h.undo.len() == 1000 ==> h.pushed(s).undo == h.undo.push(s).drop_first(),
        h.pushed(s).redo.len() == 0,
{
    if h.undo.len() == 1000 {
        assert(h.pushed(s).undo =~= h.undo.push(s).drop_first());
    }
}

/// Ctrl+Z and Ctrl+Y bring back the text of the newest entry, and nothing else of it.
pub proof fn law_undo_and_redo_keys(v: AppView, stamp: Seq<char>)
    requires
        v.mode is Normal,
    ensures
        ({
            let ctrl = |c: char|
                Key {
                    code: KeyCode::Char(c),
                    mods: Modifiers { ctrl: true, alt: false, shift: false, meta: false },
                };
            let z = app_rules::after_key(v, ctrl('z'), stamp).0.editor;
            let y = app_rules::after_key(v, ctrl('y'), stamp).0.editor;
            let h = v.editor.stacks;
            &&& z.bytes == if h.undo.len() > 0 {
                h.undo.last().bytes
            } else {
                v.editor.bytes
            }
            &&& y.bytes == if h.redo.len() > 0 {
                h.redo.last().bytes
            } else {
                v.editor.bytes
            }
            &&& h.undo.len() > 0 ==> z.stacks.undo == h.undo.drop_last()
                && z.stacks.redo.last().bytes == v.editor.bytes
            &&& h.redo.len() > 0 ==> y.stacks.redo == h.redo.drop_last()
                && y.stacks.undo.last().bytes == v.editor.bytes
        }),
{
    reveal(app_rules::normal_key);
    reveal(app_rules::control_key);
}

/// Letters, digits and underscores in a row are one step of undo, and so are blanks; other
/// characters are a step each.
pub proof fn law_undo_steps(c: char)
    requires
        (c as u32) < 0x80,
    ensures
        ({
            let k = editing::batch_kind(seq![c]);
            if 'a' <= c <= 'z' || 'A' <= c <= 'Z' || '0' <= c <= '9' || c == '_' {
                k == Some(crate::history::BatchKind::Word)
            } else if c == ' ' || c == '\t' {
                k == Some(crate::history::BatchKind::Space)
            } else {
                k is None
            }
        }),
{
}

} // verus!
