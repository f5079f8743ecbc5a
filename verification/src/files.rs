//! Which files are checked: exclude patterns and the `.py` extension.
use vstd::prelude::*;
use vstd::string::StringSliceAdditionalSpecFns;
use crate::bytes::{bytes_eq, starts_with_at};
use crate::glob::{glob_match, glob_matches};

verus! {

/// The exclude pattern `pat` covers the path `rel` (whose file name is
/// `base`): `rel` is `pat`, or lies under the directory `pat`, or the glob
/// `pat` matches the file name or the whole path.
pub open spec fn excluded_by(rel: Seq<u8>, base: Seq<u8>, pat: Seq<u8>) -> bool {
    ||| rel == pat
    ||| (rel.len() >= pat.len() + 1 && rel.subrange(0, pat.len() as int) == pat
        && rel[pat.len() as int] == '/' as u8)
    ||| glob_matches(pat, base)
    ||| glob_matches(pat, rel)
}

/// Some exclude pattern covers `rel`.
pub open spec fn spec_excluded(rel: Seq<u8>, base: Seq<u8>, excludes: Seq<Seq<u8>>) -> bool {
    exists|i: int| 0 <= i < excludes.len() && #[trigger] excluded_by(rel, base, excludes[i])
}

/// Whether some exclude pattern covers the path `rel`, whose file name is
/// `base` (empty when it has none).
pub fn excluded(rel: &[u8], base: &[u8], excludes: &Vec<Vec<u8>>) -> (r: bool)
    ensures
        r == spec_excluded(rel@, base@, excludes@.map_values(|p: Vec<u8>| p@)),
{
    let ghost pats = excludes@.map_values(|p: Vec<u8>| p@);
    let mut i: usize = 0;
    while i < excludes.len()
        invariant
            i <= excludes.len(),
            pats == excludes@.map_values(|p: Vec<u8>| p@),
            forall|k: int| 0 <= k < i ==> !#[trigger] excluded_by(rel@, base@, pats[k]),
        decreases excludes.len() - i,
    {
        let pat = excludes[i].as_slice();
        assert(pat@ == pats[i as int]);
        let under = rel.len() > pat.len() && starts_with_at(rel, 0, pat) && rel[pat.len()] == '/' as u8;
        if bytes_eq(rel, pat) || under || glob_match(pat, base) || glob_match(pat, rel) {
            assert(excluded_by(rel@, base@, pats[i as int]));
            return true;
        }
        i = i + 1;
    }
    false
}

/// The index of the last `.` in `name[..j]`.
pub open spec fn last_dot_before(name: Seq<u8>, j: int) -> Option<int>
    decreases j,
{
    if j <= 0 || j > name.len() {
        None
    } else if name[j - 1] == '.' as u8 {
        Some(j - 1)
    } else {
        last_dot_before(name, j - 1)
    }
}

/// The file name has the extension `py`, as `Path::extension` reads it: the
/// text after the last `.`, where something comes before that `.`.
pub open spec fn has_py_extension(name: Seq<u8>) -> bool {
    match last_dot_before(name, name.len() as int) {
        Some(k) => k > 0 && name.subrange(k + 1, name.len() as int) == "py".spec_bytes(),
        None => false,
    }
}

/// Whether a file of this name is a Python source to check.
pub fn is_python_source(name: &[u8]) -> (r: bool)
    ensures
        r == has_py_extension(name@),
{
    let mut j = name.len();
    while j > 0 && name[j - 1] != '.' as u8
        invariant
            j <= name.len(),
            last_dot_before(name@, name@.len() as int) == last_dot_before(name@, j as int),
        decreases j,
    {
        j = j - 1;
    }
    if j == 0 {
        return false;
    }
    let k = j - 1;
    let py = "py".as_bytes();
    k > 0 && name.len() - j == py.len() && starts_with_at(name, j, py)
}

/// An exclude pattern excludes the path when it is the path, when it names a
/// directory above the path, or when, as a glob, it matches the file name or
/// the whole path; and a path is excluded only for one of these reasons.
pub proof fn law_exclusion(rel: Seq<u8>, base: Seq<u8>, excludes: Seq<Seq<u8>>)
    ensures
        forall|i: int|
            0 <= i < excludes.len() ==> {
                let pat = #[trigger] excludes[i];
                &&& rel == pat ==> spec_excluded(rel, base, excludes)
                &&& (rel.len() > pat.len() && rel.subrange(0, pat.len() as int) == pat
                    && rel[pat.len() as int] == '/' as u8) ==> spec_excluded(rel, base, excludes)
                &&& glob_matches(pat, base) ==> spec_excluded(rel, base, excludes)
                &&& glob_matches(pat, rel) ==> spec_excluded(rel, base, excludes)
            },
        spec_excluded(rel, base, excludes) ==> exists|i: int|
            0 <= i < excludes.len() && {
                let pat = #[trigger] excludes[i];
                ||| rel == pat
                ||| (rel.len() > pat.len() && rel.subrange(0, pat.len() as int) == pat
                    && rel[pat.len() as int] == '/' as u8)
                ||| glob_matches(pat, base)
                ||| glob_matches(pat, rel)
            },
{
    assert forall|i: int| 0 <= i < excludes.len() implies {
        let pat = #[trigger] excludes[i];
        &&& rel == pat ==> spec_excluded(rel, base, excludes)
        &&& (rel.len() > pat.len() && rel.subrange(0, pat.len() as int) == pat
            && rel[pat.len() as int] == '/' as u8) ==> spec_excluded(rel, base, excludes)
        &&& glob_matches(pat, base) ==> spec_excluded(rel, base, excludes)
        &&& glob_matches(pat, rel) ==> spec_excluded(rel, base, excludes)
    } by {
        if excluded_by(rel, base, excludes[i]) {
            assert(spec_excluded(rel, base, excludes));
        }
    }
    if spec_excluded(rel, base, excludes) {
        let i = choose|i: int| 0 <= i < excludes.len() && #[trigger] excluded_by(rel, base, excludes[i]);
        assert(excludes[i] == excludes[i]);
    }
}

} // verus!
