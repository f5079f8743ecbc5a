//! Small operations on byte strings.
use vstd::prelude::*;

verus! {

/// Whether two byte strings are equal.
pub fn bytes_eq(a: &[u8], b: &[u8]) -> (r: bool)
    ensures
        r == (a@ == b@),
{
    if a.len() != b.len() {
        return false;
    }
    let mut i: usize = 0;
    while i < a.len()
        invariant
            a.len() == b.len(),
            i <= a.len(),
            forall|k: int| 0 <= k < i ==> a@[k] == b@[k],
        decreases a.len() - i,
    {
        if a[i] != b[i] {
            return false;
        }
        i = i + 1;
    }
    assert(a@ =~= b@);
    true
}

/// Whether `s[at..]` begins with `word`.
pub fn starts_with_at(s: &[u8], at: usize, word: &[u8]) -> (r: bool)
    requires
        at <= s.len(),
    ensures
        r == (at + word.len() <= s.len() && s@.subrange(at as int, at + word.len()) == word@),
{
    if word.len() > s.len() - at {
        return false;
    }
    let mut i: usize = 0;
    while i < word.len()
        invariant
            at + word.len() <= s.len(),
            i <= word.len(),
            forall|k: int| 0 <= k < i ==> s@[at + k] == word@[k],
        decreases word.len() - i,
    {
        if s[at + i] != word[i] {
            assert(s@.subrange(at as int, at + word.len())[i as int] != word@[i as int]);
            return false;
        }
        i = i + 1;
    }
    assert(s@.subrange(at as int, at + word.len()) =~= word@);
    true
}

/// Appends `s[lo..hi]` to `out`.
pub fn push_range(out: &mut Vec<u8>, s: &[u8], lo: usize, hi: usize)
    requires
        lo <= hi <= s.len(),
    ensures
        final(out)@ == old(out)@ + s@.subrange(lo as int, hi as int),
{
    let mut i = lo;
    while i < hi
        invariant
            lo <= i <= hi <= s.len(),
            out@ == old(out)@ + s@.subrange(lo as int, i as int),
        decreases hi - i,
    {
        out.push(s[i]);
        assert(s@.subrange(lo as int, i + 1) =~= s@.subrange(lo as int, i as int).push(s@[i as int]));
        i = i + 1;
    }
}

/// Appends all of `s` to `out`.
pub fn push_all(out: &mut Vec<u8>, s: &[u8])
    ensures
        final(out)@ == old(out)@ + s@,
{
    push_range(out, s, 0, s.len());
    assert(s@.subrange(0, s@.len() as int) =~= s@);
}

} // verus!
