//! Path-name logic: deriving the daemon executable's path from the
//! command line tool's own.

use vstd::prelude::*;

use crate::analyze::clean_name;
use crate::codec::{chars_vec, string_of_chars};

verus! {

/// The path with its final component replaced by the daemon executable's
/// name.
pub open spec fn daemon_path_of(s: Seq<char>) -> Seq<char> {
    s.take(s.len() - clean_name(s).len()) + "whatawhat-daemon"@
}

/// Replaces the final component of a path with the daemon executable's
/// name, the executable counterpart of [`daemon_path_of`]: the daemon is
/// installed beside the command line tool.
pub fn to_daemon_path(path: String) -> (r: String)
    ensures
        r@ == daemon_path_of(path@),
{
    let cs = chars_vec(path.as_str());
    let n = cs.len();
    let mut i: usize = n;
    while i > 0 && cs[i - 1] != '/'
        invariant
            n == cs@.len(),
            cs@ == path@,
            0 <= i <= n,
            forall|j: int| i <= j < n ==> cs@[j] != '/',
        decreases i,
    {
        i = i - 1;
    }
    proof {
        crate::analyze::lemma_clean_name_suffix(path@, i as int);
        assert(clean_name(path@).len() == path@.len() - i);
    }
    let mut out: Vec<char> = Vec::new();
    let mut j: usize = 0;
    while j < i
        invariant
            n == cs@.len(),
            cs@ == path@,
            0 <= j <= i <= n,
            out@ == path@.take(j as int),
        decreases i - j,
    {
        let c = cs[j];
        out.push(c);
        proof {
            assert(path@.take(j + 1) =~= path@.take(j as int).push(path@[j as int]));
        }
        j = j + 1;
    }
    let tail = chars_vec("whatawhat-daemon");
    let mut tail = tail;
    out.append(&mut tail);
    string_of_chars(out)
}

} // verus!
