//! Reading decimal numbers.

use vstd::prelude::*;

use crate::text;

verus! {

pub open spec fn digit(c: char) -> bool {
    '0' <= c <= '9'
}

pub open spec fn all_digits(s: Seq<char>) -> bool {
    forall|i: int| 0 <= i < s.len() ==> digit(#[trigger] s[i])
}

/// The number that a row of digits stands for.
pub open spec fn value(s: Seq<char>) -> int
    decreases s.len(),
{
    if s.len() == 0 {
        0
    } else {
        value(s.drop_last()) * 10 + (s.last() as int - '0' as int)
    }
}

/// The number that one or more digits stand for.
pub open spec fn natural(s: Seq<char>) -> Option<int> {
    if s.len() > 0 && all_digits(s) {
        Some(value(s))
    } else {
        None
    }
}

/// `s` without its first character.
pub open spec fn tail(s: Seq<char>) -> Seq<char> {
    s.subrange(1, s.len() as int)
}

/// A number without sign, or with a `+`.
pub open spec fn unsigned(s: Seq<char>) -> Option<int> {
    if s.len() > 0 && s[0] == '+' {
        natural(tail(s))
    } else {
        natural(s)
    }
}

/// A number with or without sign.
pub open spec fn signed(s: Seq<char>) -> Option<int> {
    if s.len() > 0 && s[0] == '-' {
        match natural(tail(s)) {
            Some(n) => Some(-n),
            None => None,
        }
    } else {
        unsigned(s)
    }
}

/// A number that fits in `[least, most]`.
pub open spec fn within(n: Option<int>, least: int, most: int) -> Option<int> {
    match n {
        Some(k) => if least <= k <= most {
            Some(k)
        } else {
            None
        },
        None => None,
    }
}

proof fn lemma_value_positive(s: Seq<char>)
    requires
        all_digits(s),
    ensures
        0 <= value(s),
    decreases s.len(),
{
    if s.len() > 0 {
        assert forall|i: int| 0 <= i < s.drop_last().len() implies digit(
            #[trigger] s.drop_last()[i],
        ) by {
            assert(s.drop_last()[i] == s[i]);
        }
        lemma_value_positive(s.drop_last());
        assert(digit(s[s.len() - 1]));
    }
}

/// The digits of `cs` from `from` on as a number of at most `most`.
fn read_natural(cs: &Vec<char>, from: usize, most: u64) -> (r: Option<u64>)
    requires
        from <= cs.len(),
    ensures
        match (r, within(natural(cs@.subrange(from as int, cs@.len() as int)), 0, most as int)) {
            (Some(a), Some(b)) => a == b,
            (None, None) => true,
            _ => false,
        },
{
    let ghost s = cs@.subrange(from as int, cs@.len() as int);
    if from == cs.len() {
        return None;
    }
    let mut over = false;
    let mut acc: u128 = 0;
    let mut i: usize = from;
    proof {
        assert(s.subrange(0, 0) =~= Seq::<char>::empty());
    }
    while i < cs.len()
        invariant
            from <= i <= cs.len(),
            s == cs@.subrange(from as int, cs@.len() as int),
            forall|k: int| 0 <= k < i - from ==> digit(#[trigger] s[k]),
            over ==> value(s.subrange(0, i - from)) > most,
            !over ==> acc == value(s.subrange(0, i - from)) && acc <= most,
        decreases cs.len() - i,
    {
        let c = cs[i];
        if !('0' <= c && c <= '9') {
            proof {
                assert(!digit(s[i - from]));
            }
            return None;
        }
        proof {
            assert(s.subrange(0, i - from + 1).drop_last() =~= s.subrange(0, i - from));
            assert(s.subrange(0, i - from + 1).last() == c);
            assert(s[i - from] == c);
        }
        if !over {
            let d: u128 = (c as u32 - '0' as u32) as u128;
            acc = acc * 10 + d;
            if acc > most as u128 {
                over = true;
            }
        }
        i += 1;
    }
    proof {
        assert(s.subrange(0, i - from) =~= s);
        lemma_value_positive(s);
    }
    if over {
        None
    } else {
        Some(acc as u64)
    }
}

/// Reads an unsigned number of at most `most`.
fn read_unsigned(s: &str, most: u64) -> (r: Option<u64>)
    ensures
        match (r, within(unsigned(s@), 0, most as int)) {
            (Some(a), Some(b)) => a == b,
            (None, None) => true,
            _ => false,
        },
{
    let cs = text::chars_of(s);
    proof {
        assert(cs@.subrange(0, cs@.len() as int) =~= cs@);
    }
    if cs.len() > 0 && cs[0] == '+' {
        read_natural(&cs, 1, most)
    } else {
        read_natural(&cs, 0, most)
    }
}

pub fn parse_u64(s: &str) -> (r: Option<u64>)
    ensures
        match (r, within(unsigned(s@), 0, u64::MAX as int)) {
            (Some(a), Some(b)) => a == b,
            (None, None) => true,
            _ => false,
        },
{
    read_unsigned(s, u64::MAX)
}

pub fn parse_usize(s: &str) -> (r: Option<usize>)
    ensures
        match (r, within(unsigned(s@), 0, usize::MAX as int)) {
            (Some(a), Some(b)) => a == b,
            (None, None) => true,
            _ => false,
        },
{
    match read_unsigned(s, usize::MAX as u64) {
        Some(n) => Some(n as usize),
        None => None,
    }
}

pub fn parse_i64(s: &str) -> (r: Option<i64>)
    ensures
        match (r, within(signed(s@), i64::MIN as int, i64::MAX as int)) {
            (Some(a), Some(b)) => a == b,
            (None, None) => true,
            _ => false,
        },
{
    let cs = text::chars_of(s);
    proof {
        if s@.len() > 0 && s@[0] == '-' && natural(tail(s@)) is Some {
            lemma_value_positive(tail(s@));
        }
        if unsigned(s@) is Some {
            if s@[0] == '+' {
                lemma_value_positive(tail(s@));
            } else {
                lemma_value_positive(s@);
            }
        }
    }
    if cs.len() > 0 && cs[0] == '-' {
        match read_natural(&cs, 1, 0x8000_0000_0000_0000) {
            Some(n) => if n == 0x8000_0000_0000_0000 {
                Some(i64::MIN)
            } else {
                Some(0 - (n as i64))
            },
            None => None,
        }
    } else {
        match read_unsigned(s, i64::MAX as u64) {
            Some(n) => Some(n as i64),
            None => None,
        }
    }
}

} // verus!
