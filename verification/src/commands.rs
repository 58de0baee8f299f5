//! The commands: adding notes and todos, filtering, and toggling todos.

use vstd::prelude::*;
use vstd::string::StrSliceExecFns;
use vstd::utf8::*;

use crate::buffer::TextBuffer;
use crate::date;
use crate::date::{Date, DateTime, Time};
use crate::filter_panel;
use crate::index;
use crate::index::FileIndex;
use crate::note_laws;
use crate::parser;
use crate::persistence;
use crate::spans::{NoteSpan, Span, TagSpan, TodoSpan, TodoState};
use crate::text;
use crate::words;

verus! {

// ---------------------------------------------------------------------------
// --add
// ---------------------------------------------------------------------------

/// Number of characters before the newline characters at the end of `s`.
pub open spec fn body_len(s: Seq<char>) -> int
    decreases s.len(),
{
    if s.len() > 0 && (s.last() == '\n' || s.last() == '\r') {
        body_len(s.drop_last())
    } else {
        s.len() as int
    }
}

/// Number of line endings `le` among the characters of `s` from `i` on.
pub open spec fn count_endings(s: Seq<char>, i: int, crlf: bool) -> int
    decreases s.len() - i,
{
    if i < 0 || i >= s.len() {
        0
    } else if s[i] == '\n' && !crlf {
        1 + count_endings(s, i + 1, crlf)
    } else if crlf && s[i] == '\r' && i + 1 < s.len() && s[i + 1] == '\n' {
        1 + count_endings(s, i + 1, crlf)
    } else {
        count_endings(s, i + 1, crlf)
    }
}

/// Number of line endings at the end of a file, in the file's own kind.
pub open spec fn trailing_endings(s: Seq<char>) -> int {
    count_endings(s, body_len(s), persistence::has_crlf(s))
}

/// What goes between the text of a non-empty file and a new note: the line
/// ending that the last line lacks, and a blank line unless there is one.
pub open spec fn separator(current: Seq<char>, blank_line: bool) -> Seq<char> {
    let le = persistence::line_ending(current);
    let ending = if current.last() == '\n' {
        Seq::empty()
    } else {
        le
    };
    if blank_line {
        ending + le
    } else {
        ending
    }
}

/// A tag as it is written: with one `#` in front.
pub open spec fn hashed(t: Seq<char>) -> Seq<char> {
    if t[0] == '#' {
        t
    } else {
        "#"@ + t
    }
}

/// The tags of a comma-separated list, each written with its `#`.
pub open spec fn tag_list(ps: Seq<Seq<char>>) -> Seq<Seq<char>>
    decreases ps.len(),
{
    if ps.len() == 0 {
        Seq::empty()
    } else {
        let t = words::trim(ps.last());
        if t.len() == 0 {
            tag_list(ps.drop_last())
        } else {
            tag_list(ps.drop_last()).push(hashed(t))
        }
    }
}

/// `ws` with single spaces between.
pub open spec fn spaced(ws: Seq<Seq<char>>) -> Seq<char>
    decreases ws.len(),
{
    if ws.len() == 0 {
        Seq::empty()
    } else if ws.len() == 1 {
        ws[0]
    } else {
        spaced(ws.drop_last()) + " "@ + ws.last()
    }
}

/// The line of tags under a new note, if any were given.
pub open spec fn tag_line(tags: Option<&str>) -> Option<Seq<char>> {
    match tags {
        Some(t) => if words::trim(t@).len() > 0 {
            Some(spaced(tag_list(words::pieces(t@, ','))))
        } else {
            None
        },
        None => None,
    }
}

/// The file `current` with a note stamped `stamp` added at its end.
pub open spec fn with_note(
    current: Seq<char>,
    note: Seq<char>,
    tags: Option<&str>,
    stamp: DateTime,
) -> Seq<char> {
    let le = persistence::line_ending(current);
    let front = if current.len() == 0 {
        current
    } else {
        current + separator(
            current,
            words::trim_end(current).len() > 0 && trailing_endings(current) < 2,
        )
    };
    let entry = front + ("=== "@ + date::datetime_text(stamp)) + le + note + le;
    match tag_line(tags) {
        Some(t) => entry + t + le,
        None => entry,
    }
}

/// The file `current` with a todo under the stamp `stamp` added at its end.
pub open spec fn with_todo(current: Seq<char>, task: Seq<char>, stamp: DateTime) -> Seq<char> {
    let le = persistence::line_ending(current);
    let front = if current.len() == 0 {
        current
    } else {
        current + separator(current, trailing_endings(current) < 2)
    };
    front + ("=== "@ + date::datetime_text(stamp)) + le + "TODO: "@ + task + le
}

fn ending_count(current: &str) -> (r: usize)
    ensures
        r == trailing_endings(current@),
{
    let cs = text::chars_of(current);
    let crlf = words::contains(current, "\r\n");
    let mut n: usize = cs.len();
    proof {
        assert(cs@.subrange(0, n as int) =~= cs@);
    }
    while n > 0 && (cs[n - 1] == '\n' || cs[n - 1] == '\r')
        invariant
            n <= cs.len(),
            body_len(cs@.subrange(0, n as int)) == body_len(cs@),
        decreases n,
    {
        proof {
            assert(cs@.subrange(0, n as int).drop_last() =~= cs@.subrange(0, n - 1));
        }
        n -= 1;
    }
    let mut i: usize = n;
    let mut count: usize = 0;
    while i < cs.len()
        invariant
            n <= i <= cs.len(),
            count <= i - n,
            count + count_endings(cs@, i as int, crlf) == count_endings(cs@, n as int, crlf),
        decreases cs.len() - i,
    {
        if !crlf && cs[i] == '\n' {
            count += 1;
        } else if crlf && cs[i] == '\r' && i + 1 < cs.len() && cs[i + 1] == '\n' {
            count += 1;
        }
        i += 1;
    }
    count
}

fn push_separated(current: &str, blank_line: bool) -> (r: String)
    requires
        current@.len() > 0,
    ensures
        r@ == current@ + separator(current@, blank_line),
{
    let le = persistence::detect_line_ending(current);
    let mut out = String::new();
    out.append(current);
    let cs = text::chars_of(current);
    if cs[cs.len() - 1] != '\n' {
        out.append(le);
    }
    if blank_line {
        out.append(le);
    }
    proof {
        assert(out@ =~= current@ + separator(current@, blank_line));
    }
    out
}

fn tag_words(tags: &str) -> (r: Vec<String>)
    ensures
        words::texts(r@) == tag_list(words::pieces(tags@, ',')),
{
    let ps = words::split_on(tags, ',');
    let mut out: Vec<String> = Vec::new();
    let mut i: usize = 0;
    let ghost all = words::texts(ps@);
    proof {
        assert(words::texts(out@) =~= tag_list(all.subrange(0, 0)));
    }
    while i < ps.len()
        invariant
            i <= ps.len(),
            all == words::texts(ps@),
            words::texts(out@) == tag_list(all.subrange(0, i as int)),
        decreases ps.len() - i,
    {
        let t = words::trimmed(ps[i].as_str());
        let ghost before = words::texts(out@);
        proof {
            assert(all.subrange(0, i + 1).drop_last() =~= all.subrange(0, i as int));
            assert(all[i as int] == ps[i as int]@);
        }
        if !t.is_empty() {
            let mut w = String::new();
            if t.get_char(0) != '#' {
                w.append("#");
            }
            w.append(t);
            proof {
                reveal_strlit("#");
                assert(w@ =~= hashed(t@));
            }
            out.push(w);
            proof {
                assert(words::texts(out@) =~= before.push(w@));
            }
        }
        i += 1;
    }
    proof {
        assert(all.subrange(0, i as int) =~= all);
    }
    out
}

fn join_spaced(ws: &Vec<String>) -> (r: String)
    ensures
        r@ == spaced(words::texts(ws@)),
{
    let mut out = String::new();
    let mut i: usize = 0;
    let ghost all = words::texts(ws@);
    while i < ws.len()
        invariant
            i <= ws.len(),
            all == words::texts(ws@),
            out@ == spaced(all.subrange(0, i as int)),
        decreases ws.len() - i,
    {
        proof {
            assert(all.subrange(0, i + 1).drop_last() =~= all.subrange(0, i as int));
            assert(all[i as int] == ws[i as int]@);
        }
        let ghost before = out@;
        if i > 0 {
            out.append(" ");
        }
        out.append(ws[i].as_str());
        proof {
            if i == 0 {
                assert(out@ =~= all[0]);
            }
        }
        i += 1;
    }
    proof {
        assert(all.subrange(0, i as int) =~= all);
    }
    out
}

/// Build the text to append for a new note stamped `stamp` and return the full
/// new file content.
pub fn append_note_at(current: &str, text: &str, tags: Option<&str>, stamp: DateTime) -> (r: String)
    requires
        stamp.wf(),
    ensures
        r@ == with_note(current@, text@, tags, stamp),
{
    let le = persistence::detect_line_ending(current);
    let time_str = date::format_datetime(stamp);
    let mut out = if current.is_empty() {
        String::new()
    } else {
        let blank_line = !words::trimmed_end(current).is_empty() && ending_count(current) < 2;
        push_separated(current, blank_line)
    };
    let ghost front = out@;
    proof {
        if current@.len() == 0 {
            assert(front =~= current@);
        }
    }
    let mut header = String::from_str("=== ");
    header.append(time_str.as_str());
    out.append(header.as_str());
    out.append(le);
    out.append(text);
    out.append(le);
    if let Some(t) = tags {
        if !words::trimmed(t).is_empty() {
            let line = join_spaced(&tag_words(t));
            out.append(line.as_str());
            out.append(le);
        }
    }
    out
}

/// Build the text to append for a new note and return the full new file
/// content. The note is stamped with the time of the call.
pub fn append_note(current: &str, text: &str, tags: Option<&str>) -> (r: String)
    ensures
        exists|stamp: DateTime| stamp.wf() && r@ == with_note(current@, text@, tags, stamp),
{
    let now = date::now();
    append_note_at(current, text, tags, now)
}

// ---------------------------------------------------------------------------
// --todo --add
// ---------------------------------------------------------------------------

/// Build the text to append for a new todo stamped `stamp` and return the full
/// new file content.
pub fn append_todo_at(current: &str, text: &str, stamp: DateTime) -> (r: String)
    requires
        stamp.wf(),
    ensures
        r@ == with_todo(current@, text@, stamp),
{
    let le = persistence::detect_line_ending(current);
    let time_str = date::format_datetime(stamp);
    let mut out = if current.is_empty() {
        String::new()
    } else {
        let blank_line = ending_count(current) < 2;
        push_separated(current, blank_line)
    };
    proof {
        if current@.len() == 0 {
            assert(out@ =~= current@);
        }
    }
    let mut header = String::from_str("=== ");
    header.append(time_str.as_str());
    out.append(header.as_str());
    out.append(le);
    out.append("TODO: ");
    out.append(text);
    out.append(le);
    out
}

/// Build the text to append for a new todo and return the full new file
/// content. The todo is stamped with the time of the call.
pub fn append_todo(current: &str, text: &str) -> (r: String)
    ensures
        exists|stamp: DateTime| stamp.wf() && r@ == with_todo(current@, text@, stamp),
{
    let now = date::now();
    append_todo_at(current, text, now)
}

/// Adding a note or a todo keeps the file as it was and adds text behind it.
pub proof fn law_append_keeps_file(
    current: Seq<char>,
    note: Seq<char>,
    tags: Option<&str>,
    stamp: DateTime,
)
    ensures
        current.is_prefix_of(with_note(current, note, tags, stamp)),
        current.is_prefix_of(with_todo(current, note, stamp)),
{
    assert(with_note(current, note, tags, stamp).subrange(0, current.len() as int) =~= current);
    assert(with_todo(current, note, stamp).subrange(0, current.len() as int) =~= current);
}

// ---------------------------------------------------------------------------
// Filter queries
// ---------------------------------------------------------------------------

/// Parsed query — combinable AND across fields, OR within tag groups.
#[derive(Debug, Clone)]
pub struct Query {
    /// Each inner Vec is one comma-separated tag group (OR within). Across
    /// groups is AND. Empty means no tag constraint.
    pub tag_groups: Vec<Vec<String>>,
    /// Free-text terms. All must appear in the note body (AND).
    pub texts: Vec<String>,
    /// `title:foo` terms. All must appear in the title (AND, substring).
    pub titles: Vec<String>,
    /// `date:YYYY-MM-DD` or `date:YYYY-MM` — note's date must begin with one
    /// of these prefixes. Empty means no date constraint.
    pub date_prefixes: Vec<String>,
}

/// The content of a query.
pub struct QueryView {
    pub tag_groups: Seq<Seq<Seq<char>>>,
    pub texts: Seq<Seq<char>>,
    pub titles: Seq<Seq<char>>,
    pub date_prefixes: Seq<Seq<char>>,
}

pub open spec fn groups(v: Seq<Vec<String>>) -> Seq<Seq<Seq<char>>> {
    v.map_values(|g: Vec<String>| words::texts(g@))
}

impl View for Query {
    type V = QueryView;

    open spec fn view(&self) -> QueryView {
        QueryView {
            tag_groups: groups(self.tag_groups@),
            texts: words::texts(self.texts@),
            titles: words::texts(self.titles@),
            date_prefixes: words::texts(self.date_prefixes@),
        }
    }
}

/// The query that every note matches.
pub open spec fn empty_query() -> QueryView {
    QueryView {
        tag_groups: Seq::empty(),
        texts: Seq::empty(),
        titles: Seq::empty(),
        date_prefixes: Seq::empty(),
    }
}

impl Default for Query {
    fn default() -> (r: Self)
        ensures
            r@ == empty_query(),
    {
        let r = Query {
            tag_groups: Vec::new(),
            texts: Vec::new(),
            titles: Vec::new(),
            date_prefixes: Vec::new(),
        };
        proof {
            assert(r@.tag_groups =~= Seq::empty());
            assert(r@.texts =~= Seq::empty());
            assert(r@.titles =~= Seq::empty());
            assert(r@.date_prefixes =~= Seq::empty());
        }
        r
    }
}

impl Query {
    pub fn is_empty(&self) -> (r: bool)
        ensures
            r == (self@ == empty_query()),
    {
        let r = self.tag_groups.is_empty() && self.texts.is_empty() && self.titles.is_empty()
            && self.date_prefixes.is_empty();
        proof {
            if r {
                assert(self@.tag_groups =~= Seq::empty());
                assert(self@.texts =~= Seq::empty());
                assert(self@.titles =~= Seq::empty());
                assert(self@.date_prefixes =~= Seq::empty());
            } else {
                assert(self@.tag_groups.len() == self.tag_groups@.len());
                assert(self@.texts.len() == self.texts@.len());
                assert(self@.titles.len() == self.titles@.len());
                assert(self@.date_prefixes.len() == self.date_prefixes@.len());
            }
        }
        r
    }
}

/// The names of a tag group: trimmed, in small letters, the empty ones left out.
pub open spec fn tag_group(ps: Seq<Seq<char>>) -> Seq<Seq<char>>
    decreases ps.len(),
{
    if ps.len() == 0 {
        Seq::empty()
    } else {
        let t = words::lower(words::trim(ps.last()));
        if t.len() == 0 {
            tag_group(ps.drop_last())
        } else {
            tag_group(ps.drop_last()).push(t)
        }
    }
}

/// What follows the prefix `p` of `t`.
pub open spec fn after(t: Seq<char>, p: Seq<char>) -> Seq<char> {
    t.subrange(p.len() as int, t.len() as int)
}

/// The query `q` with one more token.
pub open spec fn with_token(q: QueryView, t: Seq<char>) -> QueryView {
    if text::begins_with(t, "tag:"@) {
        let g = tag_group(words::pieces(after(t, "tag:"@), ','));
        if g.len() > 0 {
            QueryView { tag_groups: q.tag_groups.push(g), ..q }
        } else {
            q
        }
    } else if text::begins_with(t, "title:"@) {
        let w = words::lower(words::trim(after(t, "title:"@)));
        if w.len() > 0 {
            QueryView { titles: q.titles.push(w), ..q }
        } else {
            q
        }
    } else if text::begins_with(t, "date:"@) {
        let w = words::trim(after(t, "date:"@));
        if w.len() > 0 {
            QueryView { date_prefixes: q.date_prefixes.push(w), ..q }
        } else {
            q
        }
    } else {
        QueryView { texts: q.texts.push(words::lower(t)), ..q }
    }
}

/// The query of a list of tokens.
pub open spec fn query_of(tokens: Seq<Seq<char>>) -> QueryView
    decreases tokens.len(),
{
    if tokens.len() == 0 {
        empty_query()
    } else {
        with_token(query_of(tokens.drop_last()), tokens.last())
    }
}

fn parse_tag_group(rest: &str) -> (r: Vec<String>)
    ensures
        words::texts(r@) == tag_group(words::pieces(rest@, ',')),
{
    let ps = words::split_on(rest, ',');
    let mut out: Vec<String> = Vec::new();
    let mut i: usize = 0;
    let ghost all = words::texts(ps@);
    proof {
        assert(words::texts(out@) =~= tag_group(all.subrange(0, 0)));
    }
    while i < ps.len()
        invariant
            i <= ps.len(),
            all == words::texts(ps@),
            words::texts(out@) == tag_group(all.subrange(0, i as int)),
        decreases ps.len() - i,
    {
        let t = words::to_ascii_lowercase(words::trimmed(ps[i].as_str()));
        let ghost before = words::texts(out@);
        proof {
            assert(all.subrange(0, i + 1).drop_last() =~= all.subrange(0, i as int));
            assert(all[i as int] == ps[i as int]@);
        }
        if !t.as_str().is_empty() {
            out.push(t);
            proof {
                assert(words::texts(out@) =~= before.push(t@));
            }
        }
        i += 1;
    }
    proof {
        assert(all.subrange(0, i as int) =~= all);
    }
    out
}

fn add_token(q: &mut Query, token: &str)
    ensures
        final(q)@ == with_token(old(q)@, token@),
{
    let ghost was = q@;
    if let Some(rest) = words::strip_prefix(token, "tag:") {
        let group = parse_tag_group(rest);
        let ghost g = words::texts(group@);
        if !group.is_empty() {
            q.tag_groups.push(group);
            proof {
                assert(q@.tag_groups =~= was.tag_groups.push(g));
            }
        }
        proof {
            assert(g.len() == group@.len());
            assert(q@ == with_token(was, token@));
        }
    } else if let Some(rest) = words::strip_prefix(token, "title:") {
        let t = words::to_ascii_lowercase(words::trimmed(rest));
        if !t.as_str().is_empty() {
            q.titles.push(t);
            proof {
                assert(q@.titles =~= was.titles.push(t@));
            }
        }
    } else if let Some(rest) = words::strip_prefix(token, "date:") {
        let t = words::trimmed(rest).to_owned();
        if !t.as_str().is_empty() {
            q.date_prefixes.push(t);
            proof {
                assert(q@.date_prefixes =~= was.date_prefixes.push(t@));
            }
        }
    } else {
        let t = words::to_ascii_lowercase(token);
        q.texts.push(t);
        proof {
            assert(q@.texts =~= was.texts.push(t@));
        }
    }
}

/// Parse a filter query string into a `Query`.
pub fn parse_filter(query: &str) -> (r: Query)
    ensures
        r@ == query_of(words::words(query@)),
{
    let tokens = words::split_whitespace(query);
    let ghost all = words::texts(tokens@);
    let mut q = Query::default();
    let mut i: usize = 0;
    while i < tokens.len()
        invariant
            i <= tokens.len(),
            all == words::texts(tokens@),
            q@ == query_of(all.subrange(0, i as int)),
        decreases tokens.len() - i,
    {
        proof {
            assert(all.subrange(0, i + 1).drop_last() =~= all.subrange(0, i as int));
            assert(all[i as int] == tokens[i as int]@);
        }
        add_token(&mut q, tokens[i].as_str());
        i += 1;
    }
    proof {
        assert(all.subrange(0, i as int) =~= all);
    }
    q
}

// ---------------------------------------------------------------------------
// Matching
// ---------------------------------------------------------------------------

/// The bytes of an optional span; none for an absent one.
pub open spec fn opt_bytes(b: Seq<u8>, s: Option<Span>) -> Seq<u8> {
    match s {
        Some(s) => s.of(b),
        None => Seq::empty(),
    }
}

/// Note `ni` carries the tag `name`, ASCII case ignored.
pub open spec fn has_tag(
    b: Seq<u8>,
    tags: Seq<(usize, TagSpan)>,
    ni: int,
    name: Seq<char>,
) -> bool {
    exists|k: int|
        0 <= k < tags.len() && (#[trigger] tags[k]).0 == ni && words::lower_bytes(
            tags[k].1.name.of(b),
        ) == encode_utf8(name)
}

/// Note `ni` carries one of the tags of a group.
pub open spec fn has_tag_of(
    b: Seq<u8>,
    tags: Seq<(usize, TagSpan)>,
    ni: int,
    group: Seq<Seq<char>>,
) -> bool {
    exists|i: int| 0 <= i < group.len() && has_tag(b, tags, ni, #[trigger] group[i])
}

/// All terms occur in `hay`, ASCII case ignored.
pub open spec fn holds_all(hay: Seq<u8>, terms: Seq<Seq<char>>) -> bool {
    forall|i: int|
        0 <= i < terms.len() ==> text::contains_seq(
            words::lower_bytes(hay),
            encode_utf8(#[trigger] terms[i]),
        )
}

/// `s` begins with one of the prefixes.
pub open spec fn begins_with_any(s: Seq<u8>, prefixes: Seq<Seq<char>>) -> bool {
    exists|i: int|
        0 <= i < prefixes.len() && text::begins_with(s, encode_utf8(#[trigger] prefixes[i]))
}

/// Note `ni` of the text `b` matches a query: it has a tag of every group, all
/// title terms in its title, a date with one of the prefixes, and all free terms
/// in its body.
pub open spec fn note_matches(b: Seq<u8>, ni: int, q: QueryView) -> bool {
    let note = parser::notes_of(b)[ni];
    &&& forall|i: int|
        0 <= i < q.tag_groups.len() ==> has_tag_of(
            b,
            parser::tags_of(b),
            ni,
            #[trigger] q.tag_groups[i],
        )
    &&& holds_all(opt_bytes(b, note.title), q.titles)
    &&& q.date_prefixes.len() == 0 || begins_with_any(opt_bytes(b, note.date), q.date_prefixes)
    &&& holds_all(note.body.of(b), q.texts)
}

fn contains_all(hay: &str, terms: &Vec<String>) -> (r: bool)
    ensures
        r == holds_all(encode_utf8(hay@), words::texts(terms@)),
{
    let low = words::to_ascii_lowercase(hay);
    let ghost all = words::texts(terms@);
    let mut i: usize = 0;
    while i < terms.len()
        invariant
            i <= terms.len(),
            all == words::texts(terms@),
            encode_utf8(low@) == words::lower_bytes(encode_utf8(hay@)),
            forall|k: int|
                0 <= k < i ==> text::contains_seq(
                    words::lower_bytes(encode_utf8(hay@)),
                    encode_utf8(#[trigger] all[k]),
                ),
        decreases terms.len() - i,
    {
        proof {
            assert(all[i as int] == terms[i as int]@);
        }
        if !words::contains(low.as_str(), terms[i].as_str()) {
            return false;
        }
        i += 1;
    }
    true
}

fn note_has_tag(buffer: &TextBuffer, index: &FileIndex, ni: usize, name: &str) -> (r: bool)
    requires
        index.of(buffer.bytes()),
    ensures
        r == has_tag(buffer.bytes(), index.result.tags@, ni as int, name@),
{
    let ghost b = buffer.bytes();
    let ghost tags = index.result.tags@;
    let _n = buffer.len();
    let mut k: usize = 0;
    while k < index.result.tags.len()
        invariant
            k <= index.result.tags.len(),
            b == buffer.bytes(),
            b.len() <= usize::MAX,
            tags == index.result.tags@,
            tags == parser::tags_of(b),
            forall|j: int|
                0 <= j < k ==> !((#[trigger] tags[j]).0 == ni && words::lower_bytes(
                    tags[j].1.name.of(b),
                ) == encode_utf8(name@)),
        decreases index.result.tags.len() - k,
    {
        let (owner, tag) = index.result.tags[k];
        if owner == ni {
            proof {
                note_laws::law_tags_lie_in_notes(buffer@, parser::notes_of(b).len() as int);
                assert(tags[k as int].1.name.lies_in(b));
            }
            let low = words::to_ascii_lowercase(buffer.span_text(tag.name));
            proof {
                if encode_utf8(low@) == encode_utf8(name@) {
                    text::lemma_encode_injective(low@, name@);
                }
            }
            if text::same(low.as_str(), name) {
                return true;
            }
        }
        k += 1;
    }
    false
}

fn note_has_tag_of(buffer: &TextBuffer, index: &FileIndex, ni: usize, group: &Vec<String>) -> (r:
    bool)
    requires
        index.of(buffer.bytes()),
    ensures
        r == has_tag_of(buffer.bytes(), index.result.tags@, ni as int, words::texts(group@)),
{
    let ghost all = words::texts(group@);
    let mut i: usize = 0;
    while i < group.len()
        invariant
            i <= group.len(),
            index.of(buffer.bytes()),
            all == words::texts(group@),
            forall|k: int|
                0 <= k < i ==> !has_tag(
                    buffer.bytes(),
                    index.result.tags@,
                    ni as int,
                    #[trigger] all[k],
                ),
        decreases group.len() - i,
    {
        proof {
            assert(all[i as int] == group[i as int]@);
        }
        if note_has_tag(buffer, index, ni, group[i].as_str()) {
            return true;
        }
        i += 1;
    }
    false
}

fn date_matches(date: &str, prefixes: &Vec<String>) -> (r: bool)
    ensures
        r == begins_with_any(encode_utf8(date@), words::texts(prefixes@)),
{
    let ghost all = words::texts(prefixes@);
    let mut i: usize = 0;
    while i < prefixes.len()
        invariant
            i <= prefixes.len(),
            all == words::texts(prefixes@),
            forall|k: int|
                0 <= k < i ==> !text::begins_with(
                    encode_utf8(date@),
                    encode_utf8(#[trigger] all[k]),
                ),
        decreases prefixes.len() - i,
    {
        proof {
            assert(all[i as int] == prefixes[i as int]@);
        }
        if text::starts_with(date, prefixes[i].as_str()) {
            return true;
        }
        i += 1;
    }
    false
}

fn opt_text<'a>(buffer: &'a TextBuffer, s: Option<Span>) -> (r: &'a str)
    requires
        s matches Some(sp) ==> sp.lies_in(buffer.bytes()),
    ensures
        encode_utf8(r@) == opt_bytes(buffer.bytes(), s),
{
    match s {
        Some(sp) => buffer.span_text(sp),
        None => {
            proof {
                reveal_strlit("");
            }
            ""
        },
    }
}

pub fn matches_query(buffer: &TextBuffer, index: &FileIndex, ni: usize, q: &Query) -> (r: bool)
    requires
        index.of(buffer.bytes()),
        ni < parser::notes_of(buffer.bytes()).len(),
    ensures
        r == note_matches(buffer.bytes(), ni as int, q@),
{
    let ghost b = buffer.bytes();
    let _n = buffer.len();
    let note = index.result.notes[ni];
    proof {
        note_laws::law_note_spans_lie_in_file(buffer@, ni as int);
    }
    // Tags — every tag_group must be satisfied by at least one tag on the note.
    let mut g: usize = 0;
    while g < q.tag_groups.len()
        invariant
            g <= q.tag_groups.len(),
            index.of(buffer.bytes()),
            b == buffer.bytes(),
            forall|k: int|
                0 <= k < g ==> has_tag_of(
                    b,
                    parser::tags_of(b),
                    ni as int,
                    #[trigger] q@.tag_groups[k],
                ),
        decreases q.tag_groups.len() - g,
    {
        proof {
            assert(q@.tag_groups[g as int] == words::texts(q.tag_groups[g as int]@));
        }
        if !note_has_tag_of(buffer, index, ni, &q.tag_groups[g]) {
            return false;
        }
        g += 1;
    }
    // Title — every term must appear in the title (case-insensitive substring).
    if !contains_all(opt_text(buffer, note.title), &q.titles) {
        return false;
    }
    // Date — note's date span must start with one of the listed prefixes.
    if q.date_prefixes.len() > 0 && !date_matches(opt_text(buffer, note.date), &q.date_prefixes) {
        return false;
    }
    // Free text — every term must appear in the note body.
    contains_all(buffer.span_text(note.body), &q.texts)
}

// ---------------------------------------------------------------------------
// Ordering
// ---------------------------------------------------------------------------

/// The day in a span: by its ISO form, or as `chrono` reads other text.
pub open spec fn day_in_span(b: Seq<u8>, s: Option<Span>) -> Option<Date> {
    match s {
        Some(s) => if date::is_iso_date(s.of(b)) {
            date::day_named(s.of(b))
        } else {
            date::date_of(decode_utf8(s.of(b)))
        },
        None => None,
    }
}

/// The time in a span: by its ISO form, or as `chrono` reads other text.
pub open spec fn time_in_span(b: Seq<u8>, s: Option<Span>) -> Option<Time> {
    match s {
        Some(s) => if date::is_iso_time(s.of(b)) {
            date::time_named(s.of(b))
        } else {
            date::time_of(decode_utf8(s.of(b)))
        },
        None => None,
    }
}

/// The date and time by which a note is ordered.
pub open spec fn sort_key(b: Seq<u8>, note: NoteSpan) -> (Option<Date>, Option<Time>) {
    (day_in_span(b, note.date), time_in_span(b, note.time))
}

/// Earlier date first, then earlier time; no date or time comes before any.
pub open spec fn key_less(
    a: (Option<Date>, Option<Time>),
    b: (Option<Date>, Option<Time>),
) -> bool {
    let date_less = match (a.0, b.0) {
        (None, Some(_)) => true,
        (Some(x), Some(y)) => x.before(y),
        _ => false,
    };
    let time_less = match (a.1, b.1) {
        (None, Some(_)) => true,
        (Some(x), Some(y)) => x.before(y),
        _ => false,
    };
    date_less || (a.0 == b.0 && time_less)
}

/// Sort key for a note: parsed date and time, both optional. `None` sorts
/// below `Some(_)`, so undated notes land at the end under newest-first.
pub fn note_sort_key(buffer: &TextBuffer, note: &NoteSpan) -> (r: (Option<Date>, Option<Time>))
    requires
        note.date matches Some(s) ==> s.lies_in(buffer.bytes()),
        note.time matches Some(s) ==> s.lies_in(buffer.bytes()),
    ensures
        r == sort_key(buffer.bytes(), *note),
{
    let day = match note.date {
        Some(s) => {
            let t = buffer.span_text(s);
            proof {
                encode_utf8_decode_utf8(t@);
            }
            date::parse_date(t)
        },
        None => None,
    };
    let time = match note.time {
        Some(s) => {
            let t = buffer.span_text(s);
            proof {
                encode_utf8_decode_utf8(t@);
            }
            date::parse_time(t)
        },
        None => None,
    };
    (day, time)
}

fn date_before(x: Date, y: Date) -> (r: bool)
    ensures
        r == x.before(y),
{
    x.year < y.year || (x.year == y.year && (x.month < y.month || (x.month == y.month && x.day
        < y.day)))
}

fn time_before(x: Time, y: Time) -> (r: bool)
    ensures
        r == x.before(y),
{
    x.hour < y.hour || (x.hour == y.hour && x.minute < y.minute)
}

fn key_before(a: (Option<Date>, Option<Time>), b: (Option<Date>, Option<Time>)) -> (r: bool)
    ensures
        r == key_less(a, b),
{
    match (a.0, b.0) {
        (None, Some(_)) => true,
        (Some(_), None) => false,
        (Some(x), Some(y)) => if date_before(x, y) {
            true
        } else if x == y {
            match (a.1, b.1) {
                (None, Some(_)) => true,
                (Some(p), Some(q)) => time_before(p, q),
                _ => false,
            }
        } else {
            false
        },
        (None, None) => match (a.1, b.1) {
            (None, Some(_)) => true,
            (Some(p), Some(q)) => time_before(p, q),
            _ => false,
        },
    }
}

/// Note `i` is listed before note `j`: it is newer, or as old and earlier in the
/// file.
pub open spec fn listed_before(b: Seq<u8>, i: int, j: int) -> bool {
    let x = sort_key(b, parser::notes_of(b)[i]);
    let y = sort_key(b, parser::notes_of(b)[j]);
    key_less(y, x) || (!key_less(x, y) && i < j)
}

/// `r` lists the matches among the first `n` notes, newest first.
pub open spec fn is_filter_result(r: Seq<usize>, b: Seq<u8>, q: QueryView, n: int) -> bool {
    &&& forall|i: int, j: int|
        0 <= i < j < r.len() ==> listed_before(b, #[trigger] r[i] as int, #[trigger] r[j] as int)
    &&& forall|k: int|
        0 <= k < r.len() ==> (#[trigger] r[k]) < n && note_matches(b, r[k] as int, q)
    &&& forall|ni: int|
        0 <= ni < n && #[trigger] note_matches(b, ni, q) ==> r.contains(ni as usize)
}

/// The notes that match a query, newest first.
pub open spec fn filter_list(b: Seq<u8>, query: Seq<char>) -> Seq<usize> {
    choose|r: Seq<usize>|
        is_filter_result(
            r,
            b,
            query_of(words::words(query)),
            parser::notes_of(b).len() as int,
        )
}

proof fn lemma_listed_before_transitive(b: Seq<u8>, i: int, j: int, k: int)
    requires
        listed_before(b, i, j),
        listed_before(b, j, k),
    ensures
        listed_before(b, i, k),
{
}

proof fn lemma_insert_match(r: Seq<usize>, b: Seq<u8>, q: QueryView, n: usize, pos: int)
    requires
        is_filter_result(r, b, q, n as int),
        note_matches(b, n as int, q),
        0 <= pos <= r.len(),
        forall|k: int| 0 <= k < pos ==> listed_before(b, #[trigger] r[k] as int, n as int),
        pos < r.len() ==> listed_before(b, n as int, r[pos] as int),
    ensures
        is_filter_result(r.insert(pos, n), b, q, n + 1),
{
    let out = r.insert(pos, n);
    assert forall|k: int| pos <= k < r.len() implies listed_before(
        b,
        n as int,
        #[trigger] r[k] as int,
    ) by {
        if k > pos {
            lemma_listed_before_transitive(b, n as int, r[pos] as int, r[k] as int);
        }
    }
    assert forall|i: int, j: int| 0 <= i < j < out.len() implies listed_before(
        b,
        #[trigger] out[i] as int,
        #[trigger] out[j] as int,
    ) by {
        let oi = if i < pos {
            r[i]
        } else if i == pos {
            n
        } else {
            r[i - 1]
        };
        let oj = if j < pos {
            r[j]
        } else if j == pos {
            n
        } else {
            r[j - 1]
        };
        assert(out[i] == oi && out[j] == oj);
    }
    assert forall|k: int| 0 <= k < out.len() implies (#[trigger] out[k]) < n + 1 && note_matches(
        b,
        out[k] as int,
        q,
    ) by {
        if k < pos {
            assert(out[k] == r[k]);
        } else if k > pos {
            assert(out[k] == r[k - 1]);
        }
    }
    assert forall|ni: int| 0 <= ni < n + 1 && #[trigger] note_matches(
        b,
        ni,
        q,
    ) implies out.contains(ni as usize) by {
        if ni == n {
            assert(out[pos] == n);
        } else {
            assert(r.contains(ni as usize));
            let k = choose|k: int| 0 <= k < r.len() && r[k] == ni as usize;
            if k < pos {
                assert(out[k] == r[k]);
            } else {
                assert(out[k + 1] == r[k]);
            }
        }
    }
}

/// Collect filter matches for `query` and order them by date+time
/// (newest-first), with file position as the tiebreaker.
pub fn collect_filter_matches(buffer: &TextBuffer, index: &FileIndex, query: &str) -> (r: Vec<
    usize,
>)
    requires
        index.of(buffer.bytes()),
    ensures
        is_filter_result(
            r@,
            buffer.bytes(),
            query_of(words::words(query@)),
            parser::notes_of(buffer.bytes()).len() as int,
        ),
        r@ == filter_list(buffer.bytes(), query@),
{
    let q = parse_filter(query);
    let ghost b = buffer.bytes();
    let _n = buffer.len();
    let mut out: Vec<usize> = Vec::new();
    let mut ni: usize = 0;
    while ni < index.result.notes.len()
        invariant
            ni <= index.result.notes.len(),
            index.of(buffer.bytes()),
            b == buffer.bytes(),
            b.len() <= usize::MAX,
            is_filter_result(out@, b, q@, ni as int),
        decreases index.result.notes.len() - ni,
    {
        if matches_query(buffer, index, ni, &q) {
            proof {
                note_laws::law_note_spans_lie_in_file(buffer@, ni as int);
            }
            let key = note_sort_key(buffer, &index.result.notes[ni]);
            let mut pos: usize = 0;
            while pos < out.len()
                invariant
                    ni < index.result.notes.len(),
                    pos <= out.len(),
                    index.of(buffer.bytes()),
                    b == buffer.bytes(),
                    b.len() <= usize::MAX,
                    is_filter_result(out@, b, q@, ni as int),
                    key == sort_key(b, parser::notes_of(b)[ni as int]),
                    forall|k: int|
                        0 <= k < pos ==> listed_before(b, #[trigger] out@[k] as int, ni as int),
                ensures
                    pos <= out.len(),
                    forall|k: int|
                        0 <= k < pos ==> listed_before(b, #[trigger] out@[k] as int, ni as int),
                    pos < out.len() ==> listed_before(b, ni as int, out@[pos as int] as int),
                decreases out.len() - pos,
            {
                proof {
                    assert(out@[pos as int] < ni);
                    note_laws::law_note_spans_lie_in_file(buffer@, out@[pos as int] as int);
                }
                let other = note_sort_key(buffer, &index.result.notes[out[pos]]);
                if key_before(other, key) {
                    break ;
                }
                pos += 1;
            }
            proof {
                lemma_insert_match(out@, b, q@, ni, pos as int);
            }
            out.insert(pos, ni);
        }
        ni += 1;
    }
    proof {
        let n = parser::notes_of(b).len() as int;
        law_filter_result_unique(out@, filter_list(b, query@), b, q@, n);
    }
    out
}

/// A query without terms matches every note.
pub proof fn law_empty_query_matches_all(b: Seq<u8>, ni: int)
    ensures
        note_matches(b, ni, empty_query()),
{
}

/// Terms are joined by AND: one more tag, title or free term never adds a match. (Date
/// prefixes are joined by OR.)
pub proof fn law_more_terms_narrow(b: Seq<u8>, ni: int, q: QueryView, t: Seq<char>)
    requires
        !text::begins_with(t, "date:"@),
        note_matches(b, ni, with_token(q, t)),
    ensures
        note_matches(b, ni, q),
{
    let r = with_token(q, t);
    assert forall|i: int| 0 <= i < q.tag_groups.len() implies has_tag_of(
        b,
        parser::tags_of(b),
        ni,
        #[trigger] q.tag_groups[i],
    ) by {
        assert(r.tag_groups[i] == q.tag_groups[i]);
    }
    assert forall|i: int| 0 <= i < q.titles.len() implies text::contains_seq(
        words::lower_bytes(opt_bytes(b, parser::notes_of(b)[ni].title)),
        encode_utf8(#[trigger] q.titles[i]),
    ) by {
        assert(r.titles[i] == q.titles[i]);
    }
    assert forall|i: int| 0 <= i < q.texts.len() implies text::contains_seq(
        words::lower_bytes(parser::notes_of(b)[ni].body.of(b)),
        encode_utf8(#[trigger] q.texts[i]),
    ) by {
        assert(r.texts[i] == q.texts[i]);
    }
}

/// Matches come newest first: no later date follows an earlier one, and notes without a
/// date come last.
pub proof fn law_newest_first(r: Seq<usize>, b: Seq<u8>, q: QueryView, n: int, i: int, j: int)
    requires
        is_filter_result(r, b, q, n),
        0 <= i < j < r.len(),
    ensures
        ({
            let x = sort_key(b, parser::notes_of(b)[r[i] as int]).0;
            let y = sort_key(b, parser::notes_of(b)[r[j] as int]).0;
            &&& x is None ==> y is None
            &&& x is Some && y is Some ==> !x->Some_0.before(y->Some_0)
        }),
{
    assert(listed_before(b, r[i] as int, r[j] as int));
}

/// The list of matches is determined by the text and the query.
pub proof fn law_filter_result_unique(r: Seq<usize>, s: Seq<usize>, b: Seq<u8>, q: QueryView, n: int)
    requires
        is_filter_result(r, b, q, n),
        is_filter_result(s, b, q, n),
    ensures
        r == s,
    decreases r.len() + s.len(),
{
    assert forall|i: int, j: int| 0 <= i < j < r.len() implies r[i] != r[j] by {
        assert(listed_before(b, r[i] as int, r[j] as int));
    }
    assert forall|i: int, j: int| 0 <= i < j < s.len() implies s[i] != s[j] by {
        assert(listed_before(b, s[i] as int, s[j] as int));
    }
    lemma_same_lists(r, s, b, 0);
}

proof fn lemma_same_lists(r: Seq<usize>, s: Seq<usize>, b: Seq<u8>, k: int)
    requires
        0 <= k <= r.len(),
        k <= s.len(),
        forall|i: int| 0 <= i < k ==> r[i] == s[i],
        forall|i: int, j: int|
            0 <= i < j < r.len() ==> listed_before(
                b,
                #[trigger] r[i] as int,
                #[trigger] r[j] as int,
            ),
        forall|i: int, j: int|
            0 <= i < j < s.len() ==> listed_before(
                b,
                #[trigger] s[i] as int,
                #[trigger] s[j] as int,
            ),
        forall|x: usize| #[trigger] r.contains(x) <==> s.contains(x),
    ensures
        r == s,
    decreases r.len() - k,
{
    if k < r.len() && k < s.len() {
        assert(r.contains(r[k]));
        assert(s.contains(r[k]));
        let p = choose|p: int| 0 <= p < s.len() && s[p] == r[k];
        assert(s.contains(s[k]));
        assert(r.contains(s[k]));
        let q = choose|q: int| 0 <= q < r.len() && r[q] == s[k];
        if p < k {
            assert(r[p] == r[k]);
            assert(listed_before(b, r[p] as int, r[k] as int));
        }
        if q < k {
            assert(s[q] == s[k]);
            assert(listed_before(b, s[q] as int, s[k] as int));
        }
        if r[k] != s[k] {
            assert(p > k && q > k);
            assert(listed_before(b, s[k] as int, s[p] as int));
            assert(listed_before(b, r[k] as int, r[q] as int));
        }
        lemma_same_lists(r, s, b, k + 1);
    } else if k < r.len() {
        assert(r.contains(r[k]));
        let p = choose|p: int| 0 <= p < s.len() && s[p] == r[k];
        assert(r[p] == r[k]);
        assert(listed_before(b, r[p] as int, r[k] as int));
    } else if k < s.len() {
        assert(s.contains(s[k]));
        assert(r.contains(s[k]));
        let q = choose|q: int| 0 <= q < r.len() && r[q] == s[k];
        assert(s[q] == s[k]);
        assert(listed_before(b, s[q] as int, s[k] as int));
    } else {
        assert(r =~= s);
    }
}

// ---------------------------------------------------------------------------
// Output of --filter
// ---------------------------------------------------------------------------

/// The printed form of a note: its text, ended by a newline, and a blank line.
pub open spec fn printed_note(b: Seq<u8>, ni: int) -> Seq<u8> {
    let body = parser::notes_of(b)[ni].span.of(b);
    let nl = encode_utf8("\n"@);
    if body.len() > 0 && body.last() == 10 {
        body + nl
    } else {
        body + nl + nl
    }
}

/// The printed form of the first `k` matches.
pub open spec fn printed_notes(b: Seq<u8>, matches: Seq<usize>, k: int) -> Seq<u8>
    decreases k,
{
    if k <= 0 {
        Seq::empty()
    } else {
        printed_notes(b, matches, k - 1) + printed_note(b, matches[k - 1] as int)
    }
}

/// What `--filter` prints for a list of matches.
pub fn filter_output(buffer: &TextBuffer, index: &FileIndex, matches: &Vec<usize>) -> (r: String)
    requires
        index.of(buffer.bytes()),
        forall|k: int|
            0 <= k < matches@.len() ==> (#[trigger] matches@[k]) < parser::notes_of(
                buffer.bytes(),
            ).len(),
    ensures
        encode_utf8(r@) == printed_notes(buffer.bytes(), matches@, matches@.len() as int),
{
    let ghost b = buffer.bytes();
    let _n = buffer.len();
    let mut out = String::new();
    let mut k: usize = 0;
    while k < matches.len()
        invariant
            k <= matches.len(),
            index.of(buffer.bytes()),
            b == buffer.bytes(),
            b.len() <= usize::MAX,
            forall|j: int|
                0 <= j < matches@.len() ==> (#[trigger] matches@[j]) < parser::notes_of(b).len(),
            encode_utf8(out@) == printed_notes(b, matches@, k as int),
        decreases matches.len() - k,
    {
        let ni = matches[k];
        proof {
            note_laws::law_note_spans_lie_in_file(buffer@, ni as int);
        }
        let note_text = buffer.span_text(index.result.notes[ni].span);
        let bytes = note_text.as_bytes();
        let ended = bytes.len() > 0 && bytes[bytes.len() - 1] == 10u8;
        let ghost before = encode_utf8(out@);
        text::push_str(&mut out, note_text);
        if !ended {
            text::push_str(&mut out, "\n");
        }
        text::push_str(&mut out, "\n");
        proof {
            assert(encode_utf8(out@) =~= before + printed_note(b, ni as int));
        }
        k += 1;
    }
    out
}

// ---------------------------------------------------------------------------
// Todos
// ---------------------------------------------------------------------------

/// One row of a todo list.
#[derive(Debug)]
pub struct TodoEntry {
    pub state: TodoState,
    pub text: String,
    /// Byte offset of the start of this todo's line in the file.
    pub line_byte_start: usize,
    /// Date of the note that the todo stands in; empty without one.
    pub date: String,
    /// Tags of that note, as in `#oci #helidon`.
    pub tags: String,
}

/// The date of note `ni`; empty without one.
pub open spec fn note_date(b: Seq<u8>, ni: int) -> Seq<char> {
    match parser::notes_of(b)[ni].date {
        Some(s) => decode_utf8(s.of(b)),
        None => Seq::empty(),
    }
}

/// The tags of note `ni`.
pub open spec fn note_tags(b: Seq<u8>, ni: int) -> Seq<char> {
    let tags = index::tags_of_note(parser::tags_of(b), ni);
    filter_panel::tag_list(b, tags, tags.len() as int)
}

/// A row shows a todo of the text `b`, with the date and the tags of its note.
pub open spec fn entry_of(e: TodoEntry, b: Seq<u8>, t: (usize, TodoSpan)) -> bool {
    &&& e.state == t.1.state
    &&& encode_utf8(e.text@) == t.1.text.of(b)
    &&& e.line_byte_start == t.1.span.start
    &&& e.date@ == note_date(b, t.0 as int)
    &&& e.tags@ == note_tags(b, t.0 as int)
}

/// The todos that a list shows: all of them, or the open ones.
pub open spec fn shown_todos(b: Seq<u8>, show_all: bool) -> Seq<(usize, TodoSpan)> {
    if show_all {
        parser::todos_of(b)
    } else {
        parser::todos_of(b).filter(|t: (usize, TodoSpan)| t.1.state is Open)
    }
}

/// `es` are the rows for the todos of `content`.
pub open spec fn entries_of(es: Seq<TodoEntry>, content: Seq<char>, show_all: bool) -> bool {
    let b = encode_utf8(content);
    let ts = shown_todos(b, show_all);
    &&& es.len() == ts.len()
    &&& forall|i: int| 0 <= i < es.len() ==> entry_of(#[trigger] es[i], b, ts[i])
}

fn find_note_date(buffer: &TextBuffer, index: &FileIndex, ni: usize) -> (r: String)
    requires
        index.of(buffer.bytes()),
        ni < parser::notes_of(buffer.bytes()).len(),
        buffer.bytes().len() <= usize::MAX,
    ensures
        r@ == note_date(buffer.bytes(), ni as int),
{
    proof {
        note_laws::law_note_spans_lie_in_file(buffer@, ni as int);
    }
    match index.result.notes[ni].date {
        Some(s) => {
            let t = buffer.span_text(s);
            proof {
                encode_utf8_decode_utf8(t@);
            }
            t.to_owned()
        },
        None => {
            let r = String::new();
            proof {
                assert(r@ =~= Seq::<char>::empty());
            }
            r
        },
    }
}

fn find_note_tags(buffer: &TextBuffer, index: &FileIndex, ni: usize) -> (r: String)
    requires
        index.of(buffer.bytes()),
        ni < parser::notes_of(buffer.bytes()).len(),
        buffer.bytes().len() <= usize::MAX,
    ensures
        r@ == note_tags(buffer.bytes(), ni as int),
{
    let ghost b = buffer.bytes();
    proof {
        note_laws::law_tags_lie_in_notes(buffer@, parser::notes_of(b).len() as int);
        filter_panel::lemma_note_tags(buffer@, parser::tags_of(b), ni as int);
    }
    let tags = index.tags_for_note(ni);
    filter_panel::list_tags(buffer, &tags)
}

/// The rows of the todo list of a file.
pub fn load_todos(content: String, show_all: bool) -> (r: Vec<TodoEntry>)
    ensures
        entries_of(r@, content@, show_all),
{
    let buffer = TextBuffer::new(content);
    let index = FileIndex::build(&buffer);
    let ghost b = buffer.bytes();
    let _n = buffer.len();
    let todos = if show_all {
        index.todos_all()
    } else {
        index.todos_open()
    };
    let ghost open = |t: (usize, TodoSpan)| t.1.state is Open;
    proof {
        note_laws::law_todos_lie_in_notes(buffer@, parser::notes_of(b).len() as int);
        let all = parser::todos_of(b);
        assert forall|i: int| 0 <= i < todos@.len() implies (#[trigger] todos@[i]).1.text.lies_in(
            b,
        ) && todos@[i].0 < parser::notes_of(b).len() by {
            if !show_all {
                all.lemma_filter_contains_rev(open, todos@[i]);
                let j = choose|j: int| 0 <= j < all.len() && all[j] == todos@[i];
                assert(all[j].1.text.lies_in(b));
            } else {
                assert(all[i].1.text.lies_in(b));
            }
        }
    }
    let mut out: Vec<TodoEntry> = Vec::new();
    let mut i: usize = 0;
    while i < todos.len()
        invariant
            i <= todos.len(),
            b == buffer.bytes(),
            b.len() <= usize::MAX,
            index.of(b),
            out@.len() == i,
            forall|k: int|
                0 <= k < todos@.len() ==> (#[trigger] todos@[k]).1.text.lies_in(b) && todos@[k].0
                    < parser::notes_of(b).len(),
            forall|k: int| 0 <= k < i ==> entry_of(#[trigger] out@[k], b, todos@[k]),
        decreases todos.len() - i,
    {
        let (ni, t) = todos[i];
        proof {
            assert(todos@[i as int] == (ni, t));
        }
        out.push(
            TodoEntry {
                state: t.state,
                text: buffer.span_text(t.text).to_owned(),
                line_byte_start: t.span.start,
                date: find_note_date(&buffer, &index, ni),
                tags: find_note_tags(&buffer, &index, ni),
            },
        );
        i += 1;
    }
    out
}

/// One line of `--todo --grep`: number, state and task.
pub open spec fn grep_line(i: int, e: TodoEntry) -> Seq<char> {
    words::pad_left(words::decimal((i + 1) as nat), 3) + ". ["@ + (if e.state is Done {
        "x"@
    } else {
        " "@
    }) + "] "@ + e.text@
}

/// The lines for the first `n` rows whose task holds `phrase`, ASCII case
/// ignored.
pub open spec fn grep_lines(es: Seq<TodoEntry>, phrase: Seq<char>, n: int) -> Seq<Seq<char>>
    decreases n,
{
    if n <= 0 {
        Seq::empty()
    } else {
        let before = grep_lines(es, phrase, n - 1);
        let e = es[n - 1];
        if text::contains_seq(
            words::lower_bytes(encode_utf8(e.text@)),
            words::lower_bytes(encode_utf8(phrase)),
        ) {
            before.push(grep_line(n - 1, e))
        } else {
            before
        }
    }
}

/// The lines that `--todo --grep` prints.
pub fn todo_grep(entries: &Vec<TodoEntry>, phrase: &str) -> (r: Vec<String>)
    ensures
        words::texts(r@) == grep_lines(entries@, phrase@, entries@.len() as int),
{
    let phrase_lower = words::to_ascii_lowercase(phrase);
    let mut out: Vec<String> = Vec::new();
    let mut i: usize = 0;
    proof {
        assert(words::texts(out@) =~= grep_lines(entries@, phrase@, 0));
    }
    while i < entries.len()
        invariant
            i <= entries.len(),
            encode_utf8(phrase_lower@) == words::lower_bytes(encode_utf8(phrase@)),
            words::texts(out@) == grep_lines(entries@, phrase@, i as int),
        decreases entries.len() - i,
    {
        let low = words::to_ascii_lowercase(entries[i].text.as_str());
        if words::contains(low.as_str(), phrase_lower.as_str()) {
            let ghost before = words::texts(out@);
            let number = words::decimal_of(i + 1);
            let mut line = words::padded_left(number.as_str(), 3);
            line.append(". [");
            line.append(
                if entries[i].state == TodoState::Done {
                    "x"
                } else {
                    " "
                },
            );
            line.append("] ");
            line.append(entries[i].text.as_str());
            out.push(line);
            proof {
                assert(line@ == grep_line(i as int, entries@[i as int]));
                assert(words::texts(out@) =~= before.push(line@));
            }
        }
        i += 1;
    }
    out
}

// ---------------------------------------------------------------------------
// Toggling
// ---------------------------------------------------------------------------

/// The marker that replaces the one at `p` when a todo of state `state` is
/// toggled.
pub open spec fn toggled_marker(line: Seq<u8>, p: int, state: TodoState) -> Option<Seq<char>> {
    match state {
        TodoState::Open => if text::occurs_at(line, p, encode_utf8("TODO:"@)) {
            Some("DONE:"@)
        } else if text::occurs_at(line, p, encode_utf8("- [ ]"@)) {
            Some("- [x]"@)
        } else {
            None
        },
        TodoState::Done => if text::occurs_at(line, p, encode_utf8("DONE:"@)) {
            Some("TODO:"@)
        } else if text::occurs_at(line, p, encode_utf8("- [x]"@)) {
            Some("- [ ]"@)
        } else if text::occurs_at(line, p, encode_utf8("- [X]"@)) {
            Some("- [ ]"@)
        } else {
            None
        },
    }
}

/// A todo line of state `state`, toggled: only the marker after its indentation
/// changes. A line without such a marker stays as it is.
pub open spec fn toggled_line(line: Seq<u8>, state: TodoState) -> Seq<u8> {
    let p = parser::skip_blanks(line, 0);
    match toggled_marker(line, p, state) {
        Some(m) => line.subrange(0, p) + encode_utf8(m) + line.subrange(p + 5, line.len() as int),
        None => line,
    }
}

/// Rewrite a single todo line by toggling its state marker.
pub fn toggle_todo_line(line: &str, current_state: TodoState) -> (r: String)
    ensures
        encode_utf8(r@) == toggled_line(encode_utf8(line@), current_state),
{
    let b = line.as_bytes();
    let p = parser::leading_whitespace(b);
    let marker = match current_state {
        TodoState::Open => if text::bytes_at(b, p, "TODO:".as_bytes()) {
            "DONE:"
        } else if text::bytes_at(b, p, "- [ ]".as_bytes()) {
            "- [x]"
        } else {
            return line.to_owned();
        },
        TodoState::Done => if text::bytes_at(b, p, "DONE:".as_bytes()) {
            "TODO:"
        } else if text::bytes_at(b, p, "- [x]".as_bytes()) {
            "- [ ]"
        } else if text::bytes_at(b, p, "- [X]".as_bytes()) {
            "- [ ]"
        } else {
            return line.to_owned();
        },
    };
    proof {
        parser::lemma_markers();
        encode_utf8_valid_utf8(line@);
        assert(b@.subrange(p as int, p + 5)[0] == b@[p as int]);
        assert(b@.subrange(p as int, p + 5)[4] == b@[p + 4]);
        text::lemma_after_ascii(b@, p + 4);
        text::lemma_boundary_ends(line@);
    }
    let mut out = String::new();
    text::push_str(&mut out, text::slice(line, 0, p));
    text::push_str(&mut out, marker);
    text::push_str(&mut out, text::slice(line, p + 5, b.len()));
    out
}

/// The text `b` with the todo line at `start` toggled and the rest untouched.
pub open spec fn toggled_at(b: Seq<u8>, start: int, state: TodoState) -> Seq<u8> {
    let p = if start < b.len() {
        start
    } else {
        b.len() as int
    };
    let q = parser::line_after(b, p, b.len() as int);
    b.subrange(0, p) + toggled_line(b.subrange(p, q), state) + b.subrange(q, b.len() as int)
}

/// Toggle the todo whose line starts at `line_byte_start` of `content`; an
/// offset past the end counts as the end.
pub fn toggle_todo_in_text(content: &str, line_byte_start: usize, current_state: TodoState) -> (r:
    String)
    requires
        line_byte_start < encode_utf8(content@).len() ==> text::on_boundary(
            encode_utf8(content@),
            line_byte_start as int,
        ),
    ensures
        encode_utf8(r@) == toggled_at(encode_utf8(content@), line_byte_start as int, current_state),
{
    let b = content.as_bytes();
    let p = if line_byte_start < b.len() {
        line_byte_start
    } else {
        b.len()
    };
    let q = match text::find_byte(b, p, b.len(), 10u8) {
        Some(i) => i + 1,
        None => b.len(),
    };
    proof {
        encode_utf8_valid_utf8(content@);
        text::lemma_boundary_ends(content@);
        if text::find_first(b@, p as int, b@.len() as int, 10) is Some {
            text::lemma_after_ascii(b@, q - 1);
        }
    }
    let line = text::slice(content, p, q);
    let toggled = toggle_todo_line(line, current_state);
    let mut out = String::new();
    text::push_str(&mut out, text::slice(content, 0, p));
    text::push_str(&mut out, toggled.as_str());
    text::push_str(&mut out, text::slice(content, q, b.len()));
    out
}

/// Toggling replaces five bytes of the line at most and moves nothing.
pub proof fn law_toggle_changes_only_marker(line: Seq<u8>, state: TodoState)
    ensures
        toggled_line(line, state).len() == line.len(),
        forall|i: int|
            0 <= i < line.len() && !(parser::skip_blanks(line, 0) <= i < parser::skip_blanks(
                line,
                0,
            ) + 5) ==> toggled_line(line, state)[i] == line[i],
{
    parser::lemma_markers();
    parser::lemma_skip_blanks(line, 0);
}

/// Toggling a todo and toggling it back gives the line again. (A capital
/// `- [X]` comes back as `- [x]`.)
pub proof fn law_toggle_twice(line: Seq<u8>, state: TodoState)
    requires
        !(state is Done && text::occurs_at(
            line,
            parser::skip_blanks(line, 0),
            encode_utf8("- [X]"@),
        )),
        toggled_marker(line, parser::skip_blanks(line, 0), state) is Some,
    ensures
        toggled_line(toggled_line(line, state), state.toggled()) == line,
{
    parser::lemma_markers();
    parser::lemma_skip_blanks(line, 0);
    let p = parser::skip_blanks(line, 0);
    let t = toggled_line(line, state);
    let m = encode_utf8(toggled_marker(line, p, state)->Some_0);
    assert(t.subrange(p, p + 5) =~= m);
    assert(t[p] == m[0]);
    assert(parser::skip_blanks(t, 0) == p) by {
        lemma_indent_stops(t, 0, p);
    }
    let m1 = toggled_marker(line, p, state)->Some_0;
    let back = toggled_marker(t, p, state.toggled());
    if text::occurs_at(line, p, encode_utf8("TODO:"@)) || text::occurs_at(
        line,
        p,
        encode_utf8("DONE:"@),
    ) {
        assert(line.subrange(p, p + 5)[0] == line[p]);
        assert(line.subrange(p, p + 5)[1] == line[p + 1]);
        assert(line.subrange(p, p + 5)[2] == line[p + 2]);
        assert(line.subrange(p, p + 5)[3] == line[p + 3]);
        assert(line.subrange(p, p + 5)[4] == line[p + 4]);
    } else {
        assert(line.subrange(p, p + 5)[0] == line[p]);
        assert(line.subrange(p, p + 5)[1] == line[p + 1]);
        assert(line.subrange(p, p + 5)[2] == line[p + 2]);
        assert(line.subrange(p, p + 5)[3] == line[p + 3]);
        assert(line.subrange(p, p + 5)[4] == line[p + 4]);
        assert(t.subrange(p, p + 5)[0] == 45);
        assert(encode_utf8("TODO:"@)[0] == 84);
        assert(encode_utf8("DONE:"@)[0] == 68);
    }
    assert(toggled_line(t, state.toggled()) =~= line);
}

/// The marker of a toggled line.
pub proof fn lemma_toggled_marker(line: Seq<u8>)
    requires
        parser::todo_marker(line) is Some,
    ensures
        ({
            let p = parser::skip_blanks(line, 0);
            let (kind, state) = parser::todo_marker(line)->Some_0;
            let t = toggled_line(line, state);
            &&& 0 <= p && p + 5 <= line.len()
            &&& t.len() == line.len()
            &&& parser::skip_blanks(t, 0) == p
            &&& parser::todo_marker(t) == Some((kind, state.toggled()))
            &&& forall|i: int|
                0 <= i < line.len() && !(p <= i < p + 5) ==> #[trigger] t[i] == line[i]
            &&& forall|i: int| 0 <= i < p ==> parser::is_blank(#[trigger] line[i])
            &&& forall|i: int|
                p <= i < p + 5 ==> #[trigger] line[i] != 100 && !text::is_newline(line[i])
            &&& forall|i: int| p <= i < p + 5 ==> #[trigger] t[i] != 100 && !text::is_newline(t[i])
            &&& !parser::is_blank(line[p + 4]) && !parser::is_blank(t[p + 4])
            &&& line[p] == 45 || line[p] == 68 || line[p] == 84
            &&& t[p] == 45 || t[p] == 68 || t[p] == 84
        }),
{
    parser::lemma_markers();
    parser::lemma_skip_blanks(line, 0);
    let p = parser::skip_blanks(line, 0);
    let (kind, state) = parser::todo_marker(line)->Some_0;
    let t = toggled_line(line, state);
    let old = line.subrange(p, p + 5);
    assert forall|i: int| 0 <= i < 5 implies #[trigger] old[i] == line[p + i] by {}
    assert(old[0] == line[p + 0] && old[1] == line[p + 1] && old[2] == line[p + 2]);
    assert(old[3] == line[p + 3] && old[4] == line[p + 4]);
    let m = encode_utf8(toggled_marker(line, p, state)->Some_0);
    assert(t.subrange(p, p + 5) =~= m);
    let new = t.subrange(p, p + 5);
    assert(new[0] == t[p + 0] && new[1] == t[p + 1] && new[2] == t[p + 2]);
    assert(new[3] == t[p + 3] && new[4] == t[p + 4]);
    lemma_indent_stops(t, 0, p);
}

/// A due token starts with a `d`.
proof fn lemma_no_due(line: Seq<u8>, k: int)
    requires
        0 <= k < line.len(),
        line[k] != 100,
    ensures
        !parser::due_at(line, k),
{
    parser::lemma_markers();
    if text::occurs_at(line, k, encode_utf8("due:"@)) {
        assert(line.subrange(k, k + 4)[0] == line[k]);
    }
}

/// Behind the marker the due tokens are the same.
proof fn lemma_due_behind(line: Seq<u8>, t: Seq<u8>, k: int)
    requires
        t.len() == line.len(),
        0 < k < line.len(),
        forall|i: int| k <= i < line.len() ==> #[trigger] t[i] == line[i],
        parser::is_blank(t[k - 1]) == parser::is_blank(line[k - 1]),
    ensures
        parser::due_at(t, k) == parser::due_at(line, k),
{
    parser::lemma_markers();
    let d = encode_utf8("due:"@);
    if k + 4 <= line.len() {
        assert(line.subrange(k, k + 4) =~= t.subrange(k, k + 4));
    }
    assert(text::occurs_at(line, k, d) == text::occurs_at(t, k, d));
    if k + 14 <= line.len() {
        assert(t[k + 4] == line[k + 4] && t[k + 5] == line[k + 5] && t[k + 6] == line[k + 6]);
        assert(t[k + 7] == line[k + 7] && t[k + 8] == line[k + 8] && t[k + 9] == line[k + 9]);
        assert(t[k + 10] == line[k + 10] && t[k + 11] == line[k + 11]);
        assert(t[k + 12] == line[k + 12] && t[k + 13] == line[k + 13]);
    }
    assert(parser::date_at(t, k + 4) == parser::date_at(line, k + 4));
}

proof fn lemma_same_due(line: Seq<u8>, t: Seq<u8>, p: int, k: int)
    requires
        t.len() == line.len(),
        0 <= p && p + 5 <= line.len(),
        0 <= k,
        forall|i: int| 0 <= i < line.len() && !(p <= i < p + 5) ==> #[trigger] t[i] == line[i],
        forall|i: int| 0 <= i < p ==> parser::is_blank(#[trigger] line[i]),
        forall|i: int| p <= i < p + 5 ==> #[trigger] line[i] != 100,
        forall|i: int| p <= i < p + 5 ==> #[trigger] t[i] != 100,
        !parser::is_blank(line[p + 4]),
        !parser::is_blank(t[p + 4]),
    ensures
        parser::due_from(t, k) == parser::due_from(line, k),
    decreases line.len() - k,
{
    if k < line.len() {
        lemma_same_due(line, t, p, k + 1);
        if k < p + 5 {
            if k < p {
                assert(parser::is_blank(line[k]));
                assert(t[k] == line[k]);
            } else {
                assert(line[k] != 100 && t[k] != 100);
            }
            lemma_no_due(line, k);
            lemma_no_due(t, k);
        } else {
            if k > p + 5 {
                assert(t[k - 1] == line[k - 1]);
            }
            lemma_due_behind(line, t, k);
        }
    }
}

proof fn lemma_same_content(a: Seq<u8>, b: Seq<u8>)
    requires
        a.len() == b.len(),
        forall|i: int|
            0 <= i < a.len() ==> text::is_newline(#[trigger] a[i]) == text::is_newline(b[i]),
    ensures
        text::content_len(a) == text::content_len(b),
    decreases a.len(),
{
    if a.len() > 0 && text::is_newline(a.last()) {
        assert(text::is_newline(b[b.len() - 1]));
        lemma_same_content(a.drop_last(), b.drop_last());
    } else if a.len() > 0 {
        assert(!text::is_newline(b[b.len() - 1]));
    }
}

/// A toggled todo is read back at the same place, with the same text and due date and
/// in the other state.
pub proof fn law_toggled_todo_is_read(line: Seq<u8>, base: int)
    requires
        parser::todo_of(line, base) is Some,
    ensures
        ({
            let t = parser::todo_of(line, base)->Some_0;
            parser::todo_of(toggled_line(line, t.state), base) == Some(
                TodoSpan { state: t.state.toggled(), ..t },
            )
        }),
{
    let state = parser::todo_of(line, base)->Some_0.state;
    let t = toggled_line(line, state);
    let p = parser::skip_blanks(line, 0);
    lemma_toggled_marker(line);
    lemma_same_due(line, t, p, 0);
    assert forall|i: int| 0 <= i < line.len() implies text::is_newline(#[trigger] line[i])
        == text::is_newline(t[i]) by {
        if !(p <= i < p + 5) {
            assert(t[i] == line[i]);
        }
    }
    lemma_same_content(line, t);
    if p + 5 < line.len() {
        assert(t[p + 5] == line[p + 5]);
    }
}

proof fn lemma_indent_stops(t: Seq<u8>, i: int, p: int)
    requires
        0 <= i <= p < t.len(),
        forall|k: int| 0 <= k < p ==> parser::is_blank(t[k]),
        !parser::is_blank(t[p]),
    ensures
        parser::skip_blanks(t, i) == p,
    decreases p - i,
{
    if i < p {
        lemma_indent_stops(t, i + 1, p);
    }
}

} // verus!
