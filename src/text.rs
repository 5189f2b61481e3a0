//! Character-level helpers on strings and repository paths.
use vstd::prelude::*;
use vstd::std_specs::iter::IteratorSpec;

verus! {

broadcast use vstd::string::group_string_axioms;

/// The characters of `s`, in order.
pub fn chars_of(s: &str) -> (r: Vec<char>)
    ensures
        r@ == s@,
{
    let mut out: Vec<char> = Vec::new();
    let mut it = s.chars();
    let ghost n = s@.len();
    loop
        invariant
            it.obeys_prophetic_iter_laws(),
            out@.len() <= n,
            n == s@.len(),
            out@ + it.remaining() == s@,
        ensures
            out@ == s@,
        decreases n - out@.len(),
    {
        let c = it.next();
        match c {
            Some(ch) => {
                proof {
                    assert(out@.push(ch) + it.remaining() =~= s@);
                }
                out.push(ch);
            },
            None => {
                proof {
                    assert(out@ =~= s@);
                }
                break ;
            },
        }
    }
    out
}

/// Whether `p` is a prefix of `s`.
pub open spec fn is_prefix(p: Seq<char>, s: Seq<char>) -> bool {
    p.len() <= s.len() && s.subrange(0, p.len() as int) == p
}

/// The path of `entry` relative to the repository root `root`: the part after
/// the root and its separator, or `entry` itself where it does not lie under
/// the root.
pub open spec fn relative_path_of(root: Seq<char>, entry: Seq<char>) -> Seq<char> {
    if root.len() > 0 && is_prefix(root, entry) {
        let rest = entry.skip(root.len() as int);
        if root.last() == '/' || rest.len() == 0 {
            rest
        } else if rest[0] == '/' {
            rest.skip(1)
        } else {
            entry
        }
    } else {
        entry
    }
}

/// `rel` joined onto `base`: an absolute `rel` replaces `base`, and a
/// separator is put between the two where `base` does not end in one.
pub open spec fn join_path_of(base: Seq<char>, rel: Seq<char>) -> Seq<char> {
    if rel.len() > 0 && rel[0] == '/' {
        rel
    } else if base.len() == 0 || base.last() == '/' {
        base + rel
    } else {
        base + seq!['/'] + rel
    }
}

fn starts_with_chars(p: &Vec<char>, s: &Vec<char>) -> (r: bool)
    ensures
        r == is_prefix(p@, s@),
{
    if p.len() > s.len() {
        return false;
    }
    let mut i: usize = 0;
    while i < p.len()
        invariant
            p@.len() <= s@.len(),
            i <= p@.len(),
            forall|j: int| 0 <= j < i ==> p@[j] == s@[j],
        decreases p@.len() - i,
    {
        if p[i] != s[i] {
            return false;
        }
        i = i + 1;
    }
    assert(s@.subrange(0, p@.len() as int) =~= p@);
    true
}

/// The path of `entry` relative to the repository root `root`.
pub fn relative_path(root: &str, entry: &str) -> (r: String)
    ensures
        r@ == relative_path_of(root@, entry@),
{
    let rc = chars_of(root);
    let ec = chars_of(entry);
    if rc.len() > 0 && starts_with_chars(&rc, &ec) {
        let n = rc.len();
        if rc[n - 1] == '/' || ec.len() == n {
            entry.substring_char(n, ec.len()).to_string()
        } else if ec[n] == '/' {
            entry.substring_char(n + 1, ec.len()).to_string()
        } else {
            entry.to_string()
        }
    } else {
        entry.to_string()
    }
}

/// `rel` joined onto `base`.
pub fn join_path(base: &str, rel: &str) -> (r: String)
    ensures
        r@ == join_path_of(base@, rel@),
{
    let bc = chars_of(base);
    let rc = chars_of(rel);
    if rc.len() > 0 && rc[0] == '/' {
        rel.to_string()
    } else if bc.len() == 0 || bc[bc.len() - 1] == '/' {
        let mut out = base.to_string();
        out.append(rel);
        out
    } else {
        let mut out = base.to_string();
        proof {
            reveal_strlit("/");
        }
        out.append("/");
        out.append(rel);
        out
    }
}

} // verus!
