//! What a run of `git` is taken for, from what it wrote, and what makes a text a conflict.

use vstd::prelude::*;
use vstd::utf8::*;

use crate::sync;
use crate::sync::{PullView, PushView};
use crate::text;
use crate::unicode;
use crate::words;

verus! {

// ---------------------------------------------------------------------------
// Outputs
// ---------------------------------------------------------------------------

/// The bytes of `pat` stand at `i`.
pub open spec fn stands(hay: Seq<u8>, i: int, pat: Seq<u8>) -> bool {
    &&& 0 <= i
    &&& i + pat.len() <= hay.len()
    &&& forall|k: int| 0 <= k < pat.len() ==> hay[i + k] == #[trigger] pat[k]
}

/// `s` says `pat` somewhere.
pub open spec fn tells(s: Seq<char>, pat: Seq<char>) -> bool {
    exists|i: int| #[trigger] stands(encode_utf8(s), i, encode_utf8(pat))
}

/// One of the two outputs says `pat`.
pub open spec fn told(out: Seq<char>, err: Seq<char>, pat: Seq<char>) -> bool {
    tells(out, pat) || tells(err, pat)
}

proof fn lemma_stands(hay: Seq<u8>, i: int, pat: Seq<u8>)
    ensures
        text::occurs_at(hay, i, pat) == stands(hay, i, pat),
{
    if 0 <= i && i + pat.len() <= hay.len() {
        let t = hay.subrange(i, i + pat.len());
        if stands(hay, i, pat) {
            assert(t =~= pat);
        }
        if t == pat {
            assert forall|k: int| 0 <= k < pat.len() implies hay[i + k] == #[trigger] pat[k] by {
                assert(t[k] == hay[i + k]);
            }
        }
    }
}

proof fn lemma_tells(s: Seq<char>, pat: Seq<char>)
    ensures
        sync::says(s, pat) == tells(s, pat),
{
    let b = encode_utf8(s);
    let p = encode_utf8(pat);
    if sync::says(s, pat) {
        let i = choose|i: int| #[trigger] text::occurs_at(b, i, p);
        lemma_stands(b, i, p);
    }
    if tells(s, pat) {
        let i = choose|i: int| #[trigger] stands(b, i, p);
        lemma_stands(b, i, p);
        assert(text::occurs_at(b, i, p));
    }
}

/// A text without line break stands in the two outputs, put together, exactly where it
/// stands in one of them.
proof fn lemma_both(out: Seq<char>, err: Seq<char>, pat: Seq<char>)
    requires
        encode_utf8(pat).len() > 0,
        forall|k: int| 0 <= k < encode_utf8(pat).len() ==> #[trigger] encode_utf8(pat)[k] != 10,
    ensures
        sync::says(sync::both(out, err), pat) == told(out, err, pat),
{
    reveal_strlit("\n");
    let nl = "\n"@;
    is_ascii_chars_encode_utf8(nl);
    let all = sync::both(out, err);
    let a = encode_utf8(out);
    let z = encode_utf8(err);
    let b = encode_utf8(all);
    let p = encode_utf8(pat);
    text::lemma_encode_concat(out, nl);
    text::lemma_encode_concat(out + nl, err);
    assert(encode_utf8(nl) =~= seq![10u8]);
    assert(b =~= a + seq![10u8] + z);
    lemma_tells(all, pat);
    let n = a.len() as int;
    if tells(all, pat) {
        let i = choose|i: int| #[trigger] stands(b, i, p);
        if i + p.len() <= n {
            assert forall|k: int| 0 <= k < p.len() implies a[i + k] == #[trigger] p[k] by {
                assert(b[i + k] == a[i + k]);
            }
            assert(stands(a, i, p));
        } else if i <= n {
            assert(b[i + (n - i)] == p[n - i]);
            assert(b[n] == 10);
        } else {
            assert forall|k: int| 0 <= k < p.len() implies z[i - n - 1 + k] == #[trigger] p[k] by {
                assert(b[i + k] == z[i - n - 1 + k]);
            }
            assert(stands(z, i - n - 1, p));
        }
    }
    if tells(out, pat) {
        let i = choose|i: int| #[trigger] stands(a, i, p);
        assert forall|k: int| 0 <= k < p.len() implies b[i + k] == #[trigger] p[k] by {
            assert(a[i + k] == p[k]);
        }
        assert(stands(b, i, p));
    }
    if tells(err, pat) {
        let i = choose|i: int| #[trigger] stands(z, i, p);
        assert forall|k: int| 0 <= k < p.len() implies b[i + n + 1 + k] == #[trigger] p[k] by {
            assert(z[i + k] == p[k]);
        }
        assert(stands(b, i + n + 1, p));
    }
}

/// A phrase of ASCII characters has no line break in its bytes.
proof fn lemma_phrase(pat: Seq<char>)
    requires
        is_ascii_chars(pat),
        pat.len() > 0,
        !pat.contains('\n'),
    ensures
        encode_utf8(pat).len() > 0,
        forall|k: int| 0 <= k < encode_utf8(pat).len() ==> #[trigger] encode_utf8(pat)[k] != 10,
{
    is_ascii_chars_encode_utf8(pat);
    assert forall|k: int| 0 <= k < encode_utf8(pat).len() implies #[trigger] encode_utf8(pat)[k]
        != 10 by {
        assert(encode_utf8(pat)[k] == pat[k] as u8);
        assert(pat.contains(pat[k]));
    }
}

proof fn lemma_phrases(out: Seq<char>, err: Seq<char>)
    ensures
        sync::says(sync::both(out, err), "CONFLICT"@) == told(out, err, "CONFLICT"@),
        sync::says(sync::both(out, err), "Merge conflict"@) == told(out, err, "Merge conflict"@),
        sync::says(sync::both(out, err), "Already up to date"@) == told(
            out,
            err,
            "Already up to date"@,
        ),
        sync::says(sync::both(out, err), "up-to-date"@) == told(out, err, "up-to-date"@),
        sync::says(sync::both(out, err), "Everything up-to-date"@) == told(
            out,
            err,
            "Everything up-to-date"@,
        ),
        sync::says(sync::both(out, err), "rejected"@) == told(out, err, "rejected"@),
        sync::says(sync::both(out, err), "non-fast-forward"@) == told(
            out,
            err,
            "non-fast-forward"@,
        ),
{
    reveal_strlit("CONFLICT");
    reveal_strlit("Merge conflict");
    reveal_strlit("Already up to date");
    reveal_strlit("up-to-date");
    reveal_strlit("Everything up-to-date");
    reveal_strlit("rejected");
    reveal_strlit("non-fast-forward");
    lemma_phrase("CONFLICT"@);
    lemma_phrase("Merge conflict"@);
    lemma_phrase("Already up to date"@);
    lemma_phrase("up-to-date"@);
    lemma_phrase("Everything up-to-date"@);
    lemma_phrase("rejected"@);
    lemma_phrase("non-fast-forward"@);
    lemma_both(out, err, "CONFLICT"@);
    lemma_both(out, err, "Merge conflict"@);
    lemma_both(out, err, "Already up to date"@);
    lemma_both(out, err, "up-to-date"@);
    lemma_both(out, err, "Everything up-to-date"@);
    lemma_both(out, err, "rejected"@);
    lemma_both(out, err, "non-fast-forward"@);
}

/// The outputs of a run tell, in small letters, that the network failed.
pub open spec fn network_failed(out: Seq<char>, err: Seq<char>) -> bool {
    let t = unicode::lower_text(out + seq!['\n'] + err);
    ||| tells(t, "could not resolve host"@)
    ||| tells(t, "connection timed out"@)
    ||| tells(t, "connection refused"@)
    ||| tells(t, "could not read from remote repository"@)
    ||| tells(t, "unable to access"@)
    ||| tells(t, "network is unreachable"@)
}

proof fn lemma_network(out: Seq<char>, err: Seq<char>)
    ensures
        sync::offline_text(sync::both(out, err)) == network_failed(out, err),
{
    reveal_strlit("\n");
    assert(sync::both(out, err) =~= out + seq!['\n'] + err);
    let t = unicode::lower_text(sync::both(out, err));
    lemma_tells(t, "could not resolve host"@);
    lemma_tells(t, "connection timed out"@);
    lemma_tells(t, "connection refused"@);
    lemma_tells(t, "could not read from remote repository"@);
    lemma_tells(t, "unable to access"@);
    lemma_tells(t, "network is unreachable"@);
}

/// A pull that tells of a conflict in either output is one, however it ended. Otherwise one
/// that succeeded brought something unless it says that all is up to date, and one that
/// failed is put down to the network if it says so, else to what it wrote as its error.
pub proof fn law_pull(out: Seq<char>, err: Seq<char>, success: bool)
    ensures
        ({
            let r = sync::pull_result(out, err, success);
            let conflict = told(out, err, "CONFLICT"@) || told(out, err, "Merge conflict"@);
            let same = told(out, err, "Already up to date"@) || told(out, err, "up-to-date"@);
            &&& r is Conflicted <==> conflict
            &&& r is UpToDate <==> !conflict && success && same
            &&& r is FastForwarded <==> !conflict && success && !same
            &&& r is Offline <==> !conflict && !success && network_failed(out, err)
            &&& !conflict && !success && !network_failed(out, err) ==> r == PullView::Error(
                words::trim(err),
            )
        }),
{
    lemma_phrases(out, err);
    lemma_network(out, err);
}

/// A push that succeeded sent something unless it says that everything is up to date. One
/// that failed met a remote that moved on, if it was rejected as no fast-forward; else it is
/// put down to the network if it says so, else to what it wrote as its error.
pub proof fn law_push(out: Seq<char>, err: Seq<char>, success: bool)
    ensures
        ({
            let r = sync::push_result(out, err, success);
            let behind = told(out, err, "rejected"@) && told(out, err, "non-fast-forward"@);
            let same = told(out, err, "Everything up-to-date"@);
            &&& r is NothingToPush <==> success && same
            &&& r is Pushed <==> success && !same
            &&& r is Conflicted <==> !success && behind
            &&& r is Offline <==> !success && !behind && network_failed(out, err)
            &&& !success && !behind && !network_failed(out, err) ==> r == PushView::Error(
                words::trim(err),
            )
        }),
{
    lemma_phrases(out, err);
    lemma_network(out, err);
}

// ---------------------------------------------------------------------------
// Conflict markers
// ---------------------------------------------------------------------------

/// Seven times the character `c` at `p`.
pub open spec fn seven(s: Seq<char>, p: int, c: char) -> bool {
    p + 7 <= s.len() && forall|k: int| p <= k < p + 7 ==> #[trigger] s[k] == c
}

/// A conflict marker stands at `p`, at the start of a line.
pub open spec fn marker_at(s: Seq<char>, p: int) -> bool {
    &&& 0 <= p < s.len()
    &&& p == 0 || s[p - 1] == '\n'
    &&& seven(s, p, '<') || seven(s, p, '=') || seven(s, p, '>')
}

proof fn lemma_seven(s: Seq<char>, i: int, j: int, pat: Seq<char>, c: char)
    requires
        0 <= i <= j <= s.len(),
        pat.len() == 7,
        forall|k: int| 0 <= k < 7 ==> #[trigger] pat[k] == c,
        c != '\n',
        j < s.len() ==> s[j] == '\n',
    ensures
        text::begins_with(s.subrange(i, j), pat) == seven(s, i, c),
{
    let l = s.subrange(i, j);
    if text::begins_with(l, pat) {
        assert forall|k: int| i <= k < i + 7 implies #[trigger] s[k] == c by {
            assert(l.subrange(0, 7)[k - i] == pat[k - i]);
        }
    }
    if seven(s, i, c) {
        if j < i + 7 {
            assert(s[j] == c);
        }
        assert(l.subrange(0, 7) =~= pat);
    }
}

proof fn lemma_marker_line(s: Seq<char>, i: int, j: int)
    requires
        0 <= i <= j <= s.len(),
        j < s.len() ==> s[j] == '\n',
    ensures
        sync::marker_line(s.subrange(i, j)) == (seven(s, i, '<') || seven(s, i, '=') || seven(
            s,
            i,
            '>',
        )),
{
    reveal_strlit("<<<<<<<");
    reveal_strlit("=======");
    reveal_strlit(">>>>>>>");
    lemma_seven(s, i, j, "<<<<<<<"@, '<');
    lemma_seven(s, i, j, "======="@, '=');
    lemma_seven(s, i, j, ">>>>>>>"@, '>');
}

proof fn lemma_markers_from(s: Seq<char>, i: int)
    requires
        0 <= i <= s.len(),
        i == 0 || s[i - 1] == '\n',
    ensures
        (exists|k: int|
            0 <= k < words::pieces_from(s, i, '\n').len() && sync::marker_line(
                #[trigger] words::pieces_from(s, i, '\n')[k],
            )) <==> exists|p: int| i <= p && #[trigger] marker_at(s, p),
    decreases s.len() - i,
{
    let ps = words::pieces_from(s, i, '\n');
    let j = words::piece_end(s, i, '\n');
    words::lemma_piece_end(s, i, '\n');
    lemma_marker_line(s, i, j);
    assert(ps[0] == s.subrange(i, j));
    assert(sync::marker_line(ps[0]) ==> marker_at(s, i));
    if j < s.len() {
        let rest = words::pieces_from(s, j + 1, '\n');
        assert(ps == seq![s.subrange(i, j)] + rest);
        lemma_markers_from(s, j + 1);
        if exists|k: int| 0 <= k < ps.len() && sync::marker_line(#[trigger] ps[k]) {
            let k = choose|k: int| 0 <= k < ps.len() && sync::marker_line(#[trigger] ps[k]);
            if k > 0 {
                assert(ps[k] == rest[k - 1]);
                let p = choose|p: int| j + 1 <= p && #[trigger] marker_at(s, p);
                assert(marker_at(s, p));
            } else {
                assert(marker_at(s, i));
            }
        }
        if exists|p: int| i <= p && #[trigger] marker_at(s, p) {
            let p = choose|p: int| i <= p && #[trigger] marker_at(s, p);
            if p == i {
                assert(sync::marker_line(ps[0]));
            } else {
                assert(s[p - 1] == '\n');
                assert(p > j);
                let k = choose|k: int|
                    0 <= k < rest.len() && sync::marker_line(#[trigger] rest[k]);
                assert(ps[k + 1] == rest[k]);
            }
        }
    } else {
        if exists|p: int| i <= p && #[trigger] marker_at(s, p) {
            let p = choose|p: int| i <= p && #[trigger] marker_at(s, p);
            if p > i {
                assert(s[p - 1] == '\n');
            }
            assert(sync::marker_line(ps[0]));
        }
        if exists|k: int| 0 <= k < ps.len() && sync::marker_line(#[trigger] ps[k]) {
            let k = choose|k: int| 0 <= k < ps.len() && sync::marker_line(#[trigger] ps[k]);
            assert(k == 0);
            assert(marker_at(s, i));
        }
    }
}

/// A text is in conflict exactly if `<`, `=` or `>` stands seven times in a row at the
/// start of one of its lines.
pub proof fn law_markers(s: Seq<char>)
    ensures
        sync::has_markers(s) <==> exists|p: int| #[trigger] marker_at(s, p),
{
    lemma_markers_from(s, 0);
    let ps = words::pieces_from(s, 0, '\n');
    assert(words::pieces(s, '\n') == ps);
    if sync::has_markers(s) {
        let i = choose|i: int|
            0 <= i < words::pieces(s, '\n').len() && sync::marker_line(
                #[trigger] words::pieces(s, '\n')[i],
            );
        assert(sync::marker_line(ps[i]));
        let p = choose|p: int| 0 <= p && #[trigger] marker_at(s, p);
        assert(marker_at(s, p));
    }
    if exists|p: int| #[trigger] marker_at(s, p) {
        let p = choose|p: int| #[trigger] marker_at(s, p);
        assert(0 <= p && marker_at(s, p));
        let i = choose|i: int| 0 <= i < ps.len() && sync::marker_line(#[trigger] ps[i]);
        assert(sync::marker_line(words::pieces(s, '\n')[i]));
    }
}

// ---------------------------------------------------------------------------
// Repository and errors
// ---------------------------------------------------------------------------

/// The repository is the nearest directory above the file that holds a `.git`.
pub proof fn law_nearest_repository(chain: Seq<sync::Ancestor>, i: int)
    requires
        0 <= i <= chain.len(),
        i < chain.len() ==> chain[i].has_git,
        forall|k: int| 0 <= k < i ==> !(#[trigger] chain[k]).has_git,
    ensures
        sync::repo_from(chain, 0) == if i < chain.len() {
            Some(chain[i].path@)
        } else {
            None
        },
{
    lemma_repo(chain, 0, i);
}

proof fn lemma_repo(chain: Seq<sync::Ancestor>, j: int, i: int)
    requires
        0 <= j <= i <= chain.len(),
        i < chain.len() ==> chain[i].has_git,
        forall|k: int| j <= k < i ==> !(#[trigger] chain[k]).has_git,
    ensures
        sync::repo_from(chain, j) == if i < chain.len() {
            Some(chain[i].path@)
        } else {
            None
        },
    decreases i - j,
{
    if j < i {
        assert(!chain[j].has_git);
        lemma_repo(chain, j + 1, i);
    }
}

} // verus!
