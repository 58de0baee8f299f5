//! Where the program keeps its files, as text. The base directories come from the
//! platform.

use vstd::prelude::*;
use vstd::string::StrSliceExecFns;

use crate::words;

verus! {

/// `name` in the directory `base`.
pub open spec fn inside(base: Seq<char>, name: Seq<char>) -> Seq<char> {
    if base.len() == 0 || base.last() == '/' {
        base + name
    } else {
        base + seq!['/'] + name
    }
}

/// `name` in the directory `base`, if there is one.
pub open spec fn inside_some(base: Option<Seq<char>>, name: Seq<char>) -> Option<Seq<char>> {
    match base {
        Some(b) => Some(inside(b, name)),
        None => None,
    }
}

/// A directory that may be missing.
pub open spec fn dir_view(d: Option<&str>) -> Option<Seq<char>> {
    match d {
        Some(s) => Some(s@),
        None => None,
    }
}

pub fn join(base: &str, name: &str) -> (r: String)
    ensures
        r@ == inside(base@, name@),
{
    let n = base.unicode_len();
    let mut out = base.to_owned();
    if n > 0 && base.get_char(n - 1) != '/' {
        words::push_char(&mut out, '/');
        proof {
            assert(out@ =~= base@ + seq!['/']);
        }
    }
    out.append(name);
    out
}

} // verus!
