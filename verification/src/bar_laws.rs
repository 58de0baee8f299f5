//! What Tab makes of the input of the command bar.

use vstd::prelude::*;

use crate::command_bar;
use crate::highlight_laws::opened;
use crate::text;

verus! {

/// The text of the `i`-th verb.
pub open spec fn verb(i: int) -> Seq<char> {
    command_bar::verbs()[i]@
}

/// The `i`-th verb begins with `input`.
pub open spec fn fits(i: int, input: Seq<char>) -> bool {
    0 <= i < command_bar::verbs().len() && opened(verb(i), input)
}

/// Two texts do not go on with the same character behind the first `n`.
pub open spec fn part_at(a: Seq<char>, b: Seq<char>, n: int) -> bool {
    a.len() <= n || b.len() <= n || a[n] != b[n]
}

/// Two verbs that begin with `input` do not go on alike behind the first `n` characters.
pub open spec fn parted(input: Seq<char>, n: int) -> bool {
    exists|i: int, j: int|
        #[trigger] fits(i, input) && #[trigger] fits(j, input) && part_at(verb(i), verb(j), n)
}

pub proof fn lemma_begins(s: Seq<char>, p: Seq<char>)
    ensures
        text::begins_with(s, p) == opened(s, p),
{
    if p.len() <= s.len() {
        let t = s.subrange(0, p.len() as int);
        if opened(s, p) {
            assert(t =~= p);
        }
        if t == p {
            assert forall|k: int| 0 <= k < p.len() implies s[k] == #[trigger] p[k] by {
                assert(t[k] == s[k]);
            }
        }
    }
}

/// The verbs that fit, each as often as it is listed.
proof fn lemma_with_prefix(input: Seq<char>, n: int)
    requires
        0 <= n <= command_bar::verbs().len(),
    ensures
        ({
            let f = command_bar::with_prefix(command_bar::verbs(), input, n);
            &&& forall|k: int|
                0 <= k < f.len() ==> exists|i: int|
                    i < n && fits(i, input) && #[trigger] verb(i) == (#[trigger] f[k])@
            &&& forall|i: int|
                i < n && #[trigger] fits(i, input) ==> exists|k: int|
                    0 <= k < f.len() && (#[trigger] f[k])@ == verb(i)
            &&& f.len() == 0 <==> forall|i: int| i < n ==> !#[trigger] fits(i, input)
            &&& f.len() >= 2 <==> exists|i: int, j: int|
                i < j < n && #[trigger] fits(i, input) && #[trigger] fits(j, input)
        }),
    decreases n,
{
    let all = command_bar::verbs();
    if n > 0 {
        lemma_with_prefix(input, n - 1);
        lemma_begins(verb(n - 1), input);
        let g = command_bar::with_prefix(all, input, n - 1);
        let f = command_bar::with_prefix(all, input, n);
        if fits(n - 1, input) {
            assert(f == g.push(all[n - 1]));
            assert forall|k: int| 0 <= k < f.len() implies exists|i: int|
                i < n && fits(i, input) && #[trigger] verb(i) == (#[trigger] f[k])@ by {
                if k < g.len() {
                    assert(f[k] == g[k]);
                    let i = choose|i: int|
                        i < n - 1 && fits(i, input) && #[trigger] verb(i) == g[k]@;
                    assert(verb(i) == f[k]@);
                } else {
                    assert(verb(n - 1) == f[k]@);
                }
            }
            assert forall|i: int| i < n && #[trigger] fits(i, input) implies exists|k: int|
                0 <= k < f.len() && (#[trigger] f[k])@ == verb(i) by {
                if i < n - 1 {
                    let k = choose|k: int| 0 <= k < g.len() && (#[trigger] g[k])@ == verb(i);
                    assert(f[k]@ == verb(i));
                } else {
                    assert(f[g.len() as int]@ == verb(i));
                }
            }
            if g.len() >= 1 {
                let i = choose|i: int| i < n - 1 && #[trigger] fits(i, input);
                assert(fits(i, input) && fits(n - 1, input));
            }
        } else {
            assert(f == g);
        }
    }
}

proof fn lemma_common_from(a: Seq<char>, b: Seq<char>, i: int)
    requires
        0 <= i <= a.len(),
        i <= b.len(),
        forall|k: int| 0 <= k < i ==> a[k] == b[k],
    ensures
        ({
            let n = command_bar::common_from(a, b, i);
            &&& i <= n <= a.len()
            &&& n <= b.len()
            &&& forall|k: int| 0 <= k < n ==> a[k] == b[k]
            &&& part_at(a, b, n)
        }),
    decreases a.len() - i,
{
    if i < a.len() && i < b.len() && a[i] == b[i] {
        lemma_common_from(a, b, i + 1);
    }
}

proof fn lemma_common_len(f: Seq<&'static str>, n: int)
    requires
        1 <= n <= f.len(),
    ensures
        ({
            let c = command_bar::common_len(f, n);
            &&& 0 <= c <= f[0]@.len()
            &&& forall|j: int| 0 <= j < n ==> opened((#[trigger] f[j])@, f[0]@.subrange(0, c))
            &&& exists|j: int| 0 <= j < n && part_at(f[0]@, (#[trigger] f[j])@, c)
        }),
    decreases n,
{
    let first = f[0]@;
    let c = command_bar::common_len(f, n);
    if n == 1 {
        assert(part_at(first, f[0]@, c));
        assert(first.subrange(0, c) =~= first);
    } else {
        lemma_common_len(f, n - 1);
        let before = command_bar::common_len(f, n - 1);
        let here = command_bar::common_from(first, f[n - 1]@, 0);
        lemma_common_from(first, f[n - 1]@, 0);
        assert forall|j: int| 0 <= j < n implies opened(
            (#[trigger] f[j])@,
            first.subrange(0, c),
        ) by {
            if j < n - 1 {
                assert(opened(f[j]@, first.subrange(0, before)));
                assert forall|k: int| 0 <= k < c implies f[j]@[k] == #[trigger] first.subrange(
                    0,
                    c,
                )[k] by {
                    assert(f[j]@[k] == first.subrange(0, before)[k]);
                }
            } else {
                assert forall|k: int| 0 <= k < c implies f[j]@[k] == #[trigger] first.subrange(
                    0,
                    c,
                )[k] by {
                    assert(first[k] == f[n - 1]@[k]);
                }
            }
        }
        if here < before {
            assert(part_at(first, f[n - 1]@, c));
        } else {
            let j = choose|j: int| 0 <= j < n - 1 && part_at(first, (#[trigger] f[j])@, before);
            assert(part_at(first, f[j]@, c));
        }
    }
}

/// The verbs that fit, found one by one.
pub open spec fn fitting(input: Seq<char>) -> Seq<&'static str> {
    command_bar::with_prefix(command_bar::verbs(), input, command_bar::verbs().len() as int)
}

#[verifier::spinoff_prover]
proof fn lemma_only(input: Seq<char>, i: int)
    requires
        fits(i, input),
        forall|j: int| #[trigger] fits(j, input) ==> j == i,
    ensures
        fitting(input).len() == 1,
        fitting(input)[0]@ == verb(i),
{
    let n = command_bar::verbs().len() as int;
    let f = fitting(input);
    lemma_with_prefix(input, n);
    if f.len() >= 2 {
        let (x, y) = choose|x: int, y: int|
            x < y < n && #[trigger] fits(x, input) && #[trigger] fits(y, input);
        assert(x == i && y == i);
    }
    assert(f.len() > 0);
    let k = choose|k: int| k < n && fits(k, input) && #[trigger] verb(k) == f[0]@;
    assert(k == i);
}

#[verifier::spinoff_prover]
proof fn lemma_several(input: Seq<char>, i: int, j: int)
    requires
        fits(i, input),
        fits(j, input),
        i < j,
    ensures
        ({
            let f = fitting(input);
            let c = command_bar::common_len(f, f.len() as int);
            &&& f.len() >= 2
            &&& input.len() <= c <= f[0]@.len()
            &&& forall|z: int| #[trigger] fits(z, input) ==> opened(verb(z), f[0]@.subrange(0, c))
            &&& parted(input, c)
        }),
{
    let n = command_bar::verbs().len() as int;
    let f = fitting(input);
    lemma_with_prefix(input, n);
    assert(f.len() >= 2);
    let c = command_bar::common_len(f, f.len() as int);
    lemma_common_len(f, f.len() as int);
    let m = choose|m: int| 0 <= m < f.len() && part_at(f[0]@, (#[trigger] f[m])@, c);
    let x = choose|x: int| x < n && fits(x, input) && #[trigger] verb(x) == f[0]@;
    let y = choose|y: int| y < n && fits(y, input) && #[trigger] verb(y) == f[m]@;
    assert(fits(x, input) && fits(y, input) && part_at(verb(x), verb(y), c));
    assert forall|z: int| #[trigger] fits(z, input) implies opened(
        verb(z),
        f[0]@.subrange(0, c),
    ) by {
        let k = choose|k: int| 0 <= k < f.len() && (#[trigger] f[k])@ == verb(z);
        assert(opened(f[k]@, f[0]@.subrange(0, c)));
    }
    // The verbs agree on all of the input, so they part behind it.
    if c < input.len() {
        assert(verb(x)[c] == input[c] && verb(y)[c] == input[c]);
    }
}

/// Tab completes the input to the one verb that begins with it, and a space; where several
/// do, to all that they have in common, if that is more than the input; else it does
/// nothing.
pub proof fn law_completion(input: Seq<char>, i: int)
    requires
        fits(i, input),
    ensures
        (forall|j: int| #[trigger] fits(j, input) ==> j == i) ==> command_bar::completion(input)
            == Some(verb(i) + seq![' ']),
        (exists|j: int| j != i && #[trigger] fits(j, input)) ==> match command_bar::completion(
            input,
        ) {
            Some(t) => {
                &&& t.len() > input.len()
                &&& forall|j: int| #[trigger] fits(j, input) ==> opened(verb(j), t)
                &&& parted(input, t.len() as int)
            },
            None => parted(input, input.len() as int),
        },
{
    reveal_strlit(" ");
    assert(" "@ =~= seq![' ']);
    if forall|j: int| #[trigger] fits(j, input) ==> j == i {
        lemma_only(input, i);
    }
    if exists|j: int| j != i && #[trigger] fits(j, input) {
        let j = choose|j: int| j != i && #[trigger] fits(j, input);
        if i < j {
            lemma_several(input, i, j);
        } else {
            lemma_several(input, j, i);
        }
    }
}

/// Input that no verb begins with is left alone.
pub proof fn law_unknown_verb(input: Seq<char>)
    requires
        forall|i: int| !#[trigger] fits(i, input),
    ensures
        command_bar::completion(input) is None,
{
    lemma_with_prefix(input, command_bar::verbs().len() as int);
}

} // verus!
