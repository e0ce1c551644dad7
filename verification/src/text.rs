//! Strings as sequences of characters.

use vstd::prelude::*;

verus! {

/// The characters of `s`, in order.
pub fn chars_of(s: &str) -> (chars: Vec<char>)
    ensures
        chars@ == s@,
{
    let mut chars: Vec<char> = Vec::new();
    for c in it: s.chars()
        invariant
            it.seq() == s@,
            chars@ == it.seq().take(it.index()),
    {
        chars.push(c);
    }
    chars
}

/// `name` is what `path` ends with.
pub open spec fn is_suffix(name: Seq<char>, path: Seq<char>) -> bool {
    &&& name.len() <= path.len()
    &&& path.subrange(path.len() - name.len(), path.len() as int) == name
}

/// Whether `name` is what `path` ends with.
pub fn ends_with(path: &str, name: &str) -> (ok: bool)
    ensures
        ok == is_suffix(name@, path@),
{
    let p = chars_of(path);
    let n = chars_of(name);
    if n.len() > p.len() {
        return false;
    }
    let start: usize = p.len() - n.len();
    let mut k: usize = 0;
    while k < n.len()
        invariant
            p@ == path@,
            n@ == name@,
            k <= n.len(),
            n.len() <= p.len(),
            start == p.len() - n.len(),
            forall|j: int| 0 <= j < k ==> p@[start + j] == n@[j],
        decreases n.len() - k,
    {
        if p[start + k] != n[k] {
            assert(p@.subrange(start as int, p.len() as int)[k as int] != n@[k as int]);
            return false;
        }
        k += 1;
    }
    assert(p@.subrange(start as int, p.len() as int) =~= n@);
    true
}

} // verus!
