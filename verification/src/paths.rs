//! Textual operations on path strings.
//!
//! Paths are plain character strings. A suffix match compares the trailing
//! characters; the parent of a path is everything before its last `/`, or
//! empty when it has none; a path is absolute when it starts with `/`; and
//! joining appends `/` and a name. Nothing here touches a filesystem and no
//! `.` or `..` component is collapsed.

use vstd::prelude::*;

verus! {

/// Whether `p` ends with `suffix`, character for character.
pub open spec fn ends_with(p: Seq<char>, suffix: Seq<char>) -> bool {
    suffix.len() <= p.len() && p.subrange(p.len() - suffix.len(), p.len() as int) == suffix
}

/// The largest index `j < i` with `p[j] == '/'`, or `-1` when there is none.
pub open spec fn last_slash_before(p: Seq<char>, i: int) -> int
    decreases i,
{
    if i <= 0 {
        -1
    } else if 0 <= i - 1 < p.len() && p[i - 1] == '/' {
        i - 1
    } else {
        last_slash_before(p, i - 1)
    }
}

/// The textual parent of `p`: the characters before its last `/`, or the
/// empty string when `p` holds no `/`.
pub open spec fn parent_of(p: Seq<char>) -> Seq<char> {
    let j = last_slash_before(p, p.len() as int);
    if j < 0 {
        Seq::empty()
    } else {
        p.take(j)
    }
}

/// Whether `p` is an absolute path: it starts with `/`.
pub open spec fn is_absolute(p: Seq<char>) -> bool {
    p.len() > 0 && p[0] == '/'
}

/// The path of an entry named `name` inside the directory `dir`.
pub open spec fn join(dir: Seq<char>, name: Seq<char>) -> Seq<char> {
    dir + seq!['/'] + name
}

/// Whether the path `p` ends with `suffix`, character for character.
pub fn ends_with_str(p: &str, suffix: &str) -> (b: bool)
    ensures
        b == ends_with(p@, suffix@),
{
    let plen = p.unicode_len();
    let slen = suffix.unicode_len();
    if slen > plen {
        return false;
    }
    let base = plen - slen;
    for j in 0..slen
        invariant
            plen == p@.len(),
            slen == suffix@.len(),
            slen <= plen,
            base == plen - slen,
            forall|m: int| 0 <= m < j ==> p@[base + m] == suffix@[m],
    {
        if p.get_char(base + j) != suffix.get_char(j) {
            proof {
                assert(p@.subrange(base as int, plen as int)[j as int] != suffix@[j as int]);
            }
            return false;
        }
    }
    proof {
        assert(p@.subrange(base as int, plen as int) =~= suffix@);
    }
    true
}

/// The textual parent directory of `p`.
pub fn parent_dir(p: &String) -> (r: String)
    ensures
        r@ == parent_of(p@),
{
    let n = p.as_str().unicode_len();
    let mut i = n;
    while i > 0
        invariant
            i <= n,
            n == p@.len(),
            last_slash_before(p@, n as int) == last_slash_before(p@, i as int),
        decreases i,
    {
        if p.as_str().get_char(i - 1) == '/' {
            return p.as_str().substring_char(0, i - 1).to_owned();
        }
        i = i - 1;
    }
    String::new()
}

/// Whether the path `p` is absolute.
pub fn is_absolute_path(p: &String) -> (b: bool)
    ensures
        b == is_absolute(p@),
{
    if p.as_str().unicode_len() == 0 {
        false
    } else {
        p.as_str().get_char(0) == '/'
    }
}

/// The path of an entry named `name` inside the directory `dir`.
pub fn join_path(dir: &str, name: &str) -> (r: String)
    ensures
        r@ == join(dir@, name@),
{
    proof {
        reveal_strlit("/");
    }
    let mut r = dir.to_owned();
    r.append("/");
    r.append(name);
    proof {
        assert("/"@ =~= seq!['/']);
        assert(r@ =~= join(dir@, name@));
    }
    r
}

} // verus!
