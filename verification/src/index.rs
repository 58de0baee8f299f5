//! Derived index over a parsed notes file.

use vstd::prelude::*;
use vstd::utf8::*;

use crate::buffer::TextBuffer;
use crate::note_laws;
use crate::parser;
use crate::parser::{parse, ParseResult};
use crate::spans::{NoteSpan, TagSpan, TodoSpan, TodoState};
use crate::words;

verus! {

/// Derived index over a parsed `.notes` file.
/// Wraps [`ParseResult`] and provides convenient accessors for CLI commands
/// and TUI features.
pub struct FileIndex {
    pub result: ParseResult,
}

/// `a` comes before `b` in byte order.
pub open spec fn lex_less(a: Seq<u8>, b: Seq<u8>) -> bool {
    exists|k: int| #[trigger] differ_at(a, b, k)
}

/// `a` and `b` agree before `k`, and `a` ends there or has the smaller byte.
pub open spec fn differ_at(a: Seq<u8>, b: Seq<u8>, k: int) -> bool {
    &&& 0 <= k <= a.len()
    &&& k < b.len()
    &&& forall|i: int| 0 <= i < k ==> a[i] == b[i]
    &&& k == a.len() || a[k] < b[k]
}

pub proof fn lemma_lex_less_transitive(a: Seq<u8>, b: Seq<u8>, c: Seq<u8>)
    requires
        lex_less(a, b),
        lex_less(b, c),
    ensures
        lex_less(a, c),
{
    let j = choose|j: int| differ_at(a, b, j);
    let k = choose|k: int| differ_at(b, c, k);
    if j < k {
        assert(differ_at(a, c, j));
    } else {
        assert(differ_at(a, c, k));
    }
}

pub proof fn lemma_lex_less_irreflexive(a: Seq<u8>, b: Seq<u8>)
    requires
        lex_less(a, b),
    ensures
        a != b,
        !lex_less(b, a),
{
    let j = choose|j: int| differ_at(a, b, j);
    if lex_less(b, a) {
        let k = choose|k: int| differ_at(b, a, k);
        if j < k {
            assert(a[j] == b[j]);
        }
    }
}

/// How two names compare when ASCII case is ignored.
#[derive(Debug, Clone, Copy, PartialEq, Eq, Structural)]
pub enum Order {
    Less,
    Same,
    More,
}

fn order_ignoring_case(a: &[u8], b: &[u8]) -> (r: Order)
    ensures
        r is Less <==> lex_less(words::lower_bytes(a@), words::lower_bytes(b@)),
        r is Same <==> words::lower_bytes(a@) == words::lower_bytes(b@),
        r is More <==> lex_less(words::lower_bytes(b@), words::lower_bytes(a@)),
{
    let ghost x = words::lower_bytes(a@);
    let ghost y = words::lower_bytes(b@);
    let mut i: usize = 0;
    while i < a.len() && i < b.len()
        invariant
            i <= a.len(),
            i <= b.len(),
            x == words::lower_bytes(a@),
            y == words::lower_bytes(b@),
            forall|k: int| 0 <= k < i ==> x[k] == y[k],
        decreases a.len() - i,
    {
        let p = words::to_lower_byte(a[i]);
        let q = words::to_lower_byte(b[i]);
        proof {
            assert(x[i as int] == p && y[i as int] == q);
        }
        if p < q {
            proof {
                assert(differ_at(x, y, i as int));
                lemma_lex_less_irreflexive(x, y);
            }
            return Order::Less;
        }
        if q < p {
            proof {
                assert(differ_at(y, x, i as int));
                lemma_lex_less_irreflexive(y, x);
            }
            return Order::More;
        }
        i += 1;
    }
    if i < b.len() {
        proof {
            assert(differ_at(x, y, i as int));
            lemma_lex_less_irreflexive(x, y);
        }
        Order::Less
    } else if i < a.len() {
        proof {
            assert(differ_at(y, x, i as int));
            lemma_lex_less_irreflexive(y, x);
        }
        Order::More
    } else {
        proof {
            assert(x =~= y);
            if lex_less(x, y) {
                lemma_lex_less_irreflexive(x, y);
            }
        }
        Order::Same
    }
}

impl FileIndex {
    /// The index belongs to the text `b`.
    pub open spec fn of(&self, b: Seq<u8>) -> bool {
        self.result.of(b)
    }

    pub fn build(buffer: &TextBuffer) -> (r: Self)
        requires
            buffer.wf(),
        ensures
            r.of(buffer.bytes()),
    {
        Self { result: parse(buffer) }
    }

    pub fn note_count(&self) -> (r: usize)
        ensures
            r == self.result.notes@.len(),
    {
        self.result.notes.len()
    }

    pub fn notes(&self) -> (r: &[NoteSpan])
        ensures
            r@ == self.result.notes@,
    {
        self.result.notes.as_slice()
    }

    pub fn note(&self, idx: usize) -> (r: Option<&NoteSpan>)
        ensures
            r matches Some(n) ==> idx < self.result.notes@.len() && *n
                == self.result.notes@[idx as int],
            r is None <==> idx >= self.result.notes@.len(),
    {
        if idx < self.result.notes.len() {
            Some(&self.result.notes[idx])
        } else {
            None
        }
    }

    /// All todos (open + done), in file order.
    pub fn todos_all(&self) -> (r: Vec<(usize, TodoSpan)>)
        ensures
            r@ == self.result.todos@,
    {
        let mut out: Vec<(usize, TodoSpan)> = Vec::new();
        let mut i: usize = 0;
        while i < self.result.todos.len()
            invariant
                i <= self.result.todos.len(),
                out@ == self.result.todos@.subrange(0, i as int),
            decreases self.result.todos.len() - i,
        {
            out.push(self.result.todos[i]);
            i += 1;
            proof {
                assert(out@ =~= self.result.todos@.subrange(0, i as int));
            }
        }
        proof {
            assert(out@ =~= self.result.todos@);
        }
        out
    }

    /// Open todos only, in file order.
    pub fn todos_open(&self) -> (r: Vec<(usize, TodoSpan)>)
        ensures
            r@ == self.result.todos@.filter(|t: (usize, TodoSpan)| t.1.state is Open),
    {
        let mut out: Vec<(usize, TodoSpan)> = Vec::new();
        let ghost open = |t: (usize, TodoSpan)| t.1.state is Open;
        let mut i: usize = 0;
        proof {
            reveal(Seq::filter);
            assert(self.result.todos@.subrange(0, 0) =~= Seq::empty());
        }
        while i < self.result.todos.len()
            invariant
                i <= self.result.todos.len(),
                open == (|t: (usize, TodoSpan)| t.1.state is Open),
                out@ == self.result.todos@.subrange(0, i as int).filter(open),
            decreases self.result.todos.len() - i,
        {
            let t = self.result.todos[i];
            proof {
                let s = self.result.todos@.subrange(0, i as int);
                s.lemma_filter_push(t, open);
                assert(s.push(t) =~= self.result.todos@.subrange(0, i + 1));
            }
            if t.1.state == TodoState::Open {
                out.push(t);
            }
            i += 1;
        }
        proof {
            assert(self.result.todos@.subrange(0, i as int) =~= self.result.todos@);
        }
        out
    }

    /// The tags in the body of one note, in file order.
    pub fn tags_for_note(&self, note_idx: usize) -> (r: Vec<TagSpan>)
        ensures
            r@ == tags_of_note(self.result.tags@, note_idx as int),
    {
        let mut out: Vec<TagSpan> = Vec::new();
        let mut i: usize = 0;
        while i < self.result.tags.len()
            invariant
                i <= self.result.tags.len(),
                out@ == tags_of_note(self.result.tags@.subrange(0, i as int), note_idx as int),
            decreases self.result.tags.len() - i,
        {
            proof {
                assert(self.result.tags@.subrange(0, i + 1).drop_last()
                    =~= self.result.tags@.subrange(0, i as int));
            }
            if self.result.tags[i].0 == note_idx {
                out.push(self.result.tags[i].1);
            }
            i += 1;
        }
        proof {
            assert(self.result.tags@.subrange(0, i as int) =~= self.result.tags@);
        }
        out
    }

    /// Tag names across the whole file, in alphabetical order. Names that
    /// differ only in ASCII case are one tag, spelled as where it first occurs.
    pub fn unique_tag_names<'a>(&'a self, buffer: &'a TextBuffer) -> (r: Vec<&'a str>)
        requires
            self.of(buffer.bytes()),
        ensures
            tag_names(
                r@.map_values(|s: &str| encode_utf8(s@)),
                buffer.bytes(),
                self.result.tags@,
                self.result.tags@.len() as int,
            ),
    {
        let ghost b = buffer.bytes();
        let ghost tags = self.result.tags@;
        let mut names: Vec<&'a str> = Vec::new();
        let mut i: usize = 0;
        let _len = buffer.len();
        while i < self.result.tags.len()
            invariant
                i <= self.result.tags.len(),
                b == buffer.bytes(),
                b.len() <= usize::MAX,
                tags == self.result.tags@,
                tags == parser::tags_of(b),
                tag_names(names@.map_values(|s: &str| encode_utf8(s@)), b, tags, i as int),
            decreases self.result.tags.len() - i,
        {
            proof {
                note_laws::law_tags_lie_in_notes(buffer@, parser::notes_of(b).len() as int);
                assert(tags[i as int].1.name.lies_in(b));
            }
            let name = buffer.span_text(self.result.tags[i].1.name);
            let ghost before = names@.map_values(|s: &str| encode_utf8(s@));
            let mut pos: usize = 0;
            let mut known = false;
            while pos < names.len() && !known
                invariant_except_break
                    !known,
                invariant
                    pos <= names.len(),
                    before == names@.map_values(|s: &str| encode_utf8(s@)),
                    forall|k: int|
                        0 <= k < pos ==> lex_less(
                            words::lower_bytes(#[trigger] before[k]),
                            words::lower_bytes(encode_utf8(name@)),
                        ),
                ensures
                    known ==> pos < names.len() && words::lower_bytes(before[pos as int])
                        == words::lower_bytes(encode_utf8(name@)),
                    !known && pos < names.len() ==> lex_less(
                        words::lower_bytes(encode_utf8(name@)),
                        words::lower_bytes(before[pos as int]),
                    ),
                decreases names.len() - pos,
            {
                match order_ignoring_case(names[pos].as_bytes(), name.as_bytes()) {
                    Order::Less => {
                        proof {
                            assert(before[pos as int] == encode_utf8(names[pos as int]@));
                        }
                        pos += 1;
                    },
                    Order::Same => {
                        known = true;
                        proof {
                            assert(before[pos as int] == encode_utf8(names[pos as int]@));
                        }
                        break ;
                    },
                    Order::More => {
                        proof {
                            assert(before[pos as int] == encode_utf8(names[pos as int]@));
                        }
                        break ;
                    },
                }
            }
            if !known {
                names.insert(pos, name);
            }
            proof {
                let after = names@.map_values(|s: &str| encode_utf8(s@));
                let new = encode_utf8(name@);
                assert(new == name_of(b, tags, i as int));
                if known {
                    lemma_names_known(before, b, tags, i as int, pos as int);
                } else {
                    assert(after =~= before.insert(pos as int, new));
                    lemma_names_insert(before, b, tags, i as int, pos as int);
                }
            }
            i += 1;
        }
        names
    }
}

/// The tags of note `note` among `tags`.
pub open spec fn tags_of_note(tags: Seq<(usize, TagSpan)>, note: int) -> Seq<TagSpan>
    decreases tags.len(),
{
    if tags.len() == 0 {
        Seq::empty()
    } else if tags.last().0 == note {
        tags_of_note(tags.drop_last(), note).push(tags.last().1)
    } else {
        tags_of_note(tags.drop_last(), note)
    }
}

/// The name of tag `j`.
pub open spec fn name_of(b: Seq<u8>, tags: Seq<(usize, TagSpan)>, j: int) -> Seq<u8> {
    tags[j].1.name.of(b)
}

/// Tag `j` is the first of the file with its name.
pub open spec fn first_use(b: Seq<u8>, tags: Seq<(usize, TagSpan)>, j: int) -> bool {
    forall|i: int|
        0 <= i < j ==> words::lower_bytes(#[trigger] name_of(b, tags, i)) != words::lower_bytes(
            name_of(b, tags, j),
        )
}

/// Name `k` is that of a first use among the first `n` tags.
pub open spec fn used(
    names: Seq<Seq<u8>>,
    b: Seq<u8>,
    tags: Seq<(usize, TagSpan)>,
    n: int,
    k: int,
) -> bool {
    exists|j: int|
        0 <= j < n && first_use(b, tags, j) && #[trigger] name_of(b, tags, j) == names[k]
}

/// The name of tag `j` is listed.
pub open spec fn listed(
    names: Seq<Seq<u8>>,
    b: Seq<u8>,
    tags: Seq<(usize, TagSpan)>,
    j: int,
) -> bool {
    exists|k: int|
        0 <= k < names.len() && words::lower_bytes(#[trigger] names[k]) == words::lower_bytes(
            name_of(b, tags, j),
        )
}

/// `names` are the names of the first `n` tags: in order, once each, spelled as
/// where they first occur.
pub open spec fn tag_names(
    names: Seq<Seq<u8>>,
    b: Seq<u8>,
    tags: Seq<(usize, TagSpan)>,
    n: int,
) -> bool {
    &&& forall|i: int, j: int|
        0 <= i < j < names.len() ==> lex_less(
            words::lower_bytes(#[trigger] names[i]),
            words::lower_bytes(#[trigger] names[j]),
        )
    &&& forall|k: int| 0 <= k < names.len() ==> #[trigger] used(names, b, tags, n, k)
    &&& forall|j: int| 0 <= j < n ==> #[trigger] listed(names, b, tags, j)
}

proof fn lemma_names_known(
    names: Seq<Seq<u8>>,
    b: Seq<u8>,
    tags: Seq<(usize, TagSpan)>,
    n: int,
    pos: int,
)
    requires
        tag_names(names, b, tags, n),
        0 <= n < tags.len(),
        0 <= pos < names.len(),
        words::lower_bytes(names[pos]) == words::lower_bytes(name_of(b, tags, n)),
    ensures
        tag_names(names, b, tags, n + 1),
{
    assert forall|k: int| 0 <= k < names.len() implies #[trigger] used(
        names,
        b,
        tags,
        n + 1,
        k,
    ) by {
        assert(used(names, b, tags, n, k));
        let j = choose|j: int|
            0 <= j < n && first_use(b, tags, j) && #[trigger] name_of(b, tags, j) == names[k];
        assert(0 <= j < n + 1);
    }
    assert(listed(names, b, tags, n));
}

proof fn lemma_names_insert(
    names: Seq<Seq<u8>>,
    b: Seq<u8>,
    tags: Seq<(usize, TagSpan)>,
    n: int,
    pos: int,
)
    requires
        tag_names(names, b, tags, n),
        0 <= n < tags.len(),
        0 <= pos <= names.len(),
        forall|k: int|
            0 <= k < pos ==> lex_less(
                words::lower_bytes(#[trigger] names[k]),
                words::lower_bytes(name_of(b, tags, n)),
            ),
        pos < names.len() ==> lex_less(
            words::lower_bytes(name_of(b, tags, n)),
            words::lower_bytes(names[pos]),
        ),
    ensures
        tag_names(names.insert(pos, name_of(b, tags, n)), b, tags, n + 1),
{
    let new = name_of(b, tags, n);
    let out = names.insert(pos, new);
    assert forall|k: int| pos <= k < names.len() implies lex_less(
        words::lower_bytes(new),
        words::lower_bytes(#[trigger] names[k]),
    ) by {
        if k > pos {
            lemma_lex_less_transitive(
                words::lower_bytes(new),
                words::lower_bytes(names[pos]),
                words::lower_bytes(names[k]),
            );
        }
    }
    assert forall|k: int| 0 <= k < names.len() implies words::lower_bytes(#[trigger] names[k])
        != words::lower_bytes(new) by {
        if k < pos {
            lemma_lex_less_irreflexive(words::lower_bytes(names[k]), words::lower_bytes(new));
        } else {
            lemma_lex_less_irreflexive(words::lower_bytes(new), words::lower_bytes(names[k]));
        }
    }
    assert(first_use(b, tags, n)) by {
        assert forall|i: int| 0 <= i < n implies words::lower_bytes(
            #[trigger] name_of(b, tags, i),
        ) != words::lower_bytes(new) by {
            assert(listed(names, b, tags, i));
            let k = choose|k: int|
                0 <= k < names.len() && words::lower_bytes(#[trigger] names[k])
                    == words::lower_bytes(name_of(b, tags, i));
            assert(words::lower_bytes(names[k]) != words::lower_bytes(new));
        }
    }
    assert forall|i: int, j: int| 0 <= i < j < out.len() implies lex_less(
        words::lower_bytes(#[trigger] out[i]),
        words::lower_bytes(#[trigger] out[j]),
    ) by {
        let oi = if i < pos {
            names[i]
        } else if i == pos {
            new
        } else {
            names[i - 1]
        };
        let oj = if j < pos {
            names[j]
        } else if j == pos {
            new
        } else {
            names[j - 1]
        };
        assert(out[i] == oi && out[j] == oj);
    }
    assert forall|k: int| 0 <= k < out.len() implies #[trigger] used(out, b, tags, n + 1, k) by {
        if k == pos {
            assert(name_of(b, tags, n) == out[k]);
        } else {
            let o = if k < pos {
                k
            } else {
                k - 1
            };
            assert(out[k] == names[o]);
            assert(used(names, b, tags, n, o));
            let j = choose|j: int|
                0 <= j < n && first_use(b, tags, j) && #[trigger] name_of(b, tags, j) == names[o];
            assert(0 <= j < n + 1);
        }
    }
    assert forall|j: int| 0 <= j < n + 1 implies #[trigger] listed(out, b, tags, j) by {
        if j == n {
            assert(out[pos] == new);
        } else {
            assert(listed(names, b, tags, j));
            let k = choose|k: int|
                0 <= k < names.len() && words::lower_bytes(#[trigger] names[k])
                    == words::lower_bytes(name_of(b, tags, j));
            if k < pos {
                assert(out[k] == names[k]);
            } else {
                assert(out[k + 1] == names[k]);
            }
        }
    }
}

} // verus!
