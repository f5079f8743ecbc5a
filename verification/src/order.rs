//! The order in which findings are printed: by path (component by component,
//! as paths compare), then line, then column, then message.
use vstd::prelude::*;

verus! {

/// A component of a path, as `std::path::Component` tells them apart.
pub enum PathPart {
    /// A path prefix, compared by its text.
    Prefix(Vec<u8>),
    RootDir,
    CurDir,
    ParentDir,
    Normal(Vec<u8>),
}

/// A reported finding together with the path of its file.
pub struct Located {
    pub path: Vec<PathPart>,
    pub line: usize,
    pub col: u64,
    pub message: Vec<u8>,
}

/// -1, 0 or 1 as `a` is below, equal to or above `b`.
pub open spec fn compare_int(a: int, b: int) -> int {
    if a < b {
        -1
    } else if a > b {
        1
    } else {
        0
    }
}

/// Lexicographic comparison of byte strings: -1, 0 or 1.
pub open spec fn compare_bytes(a: Seq<u8>, b: Seq<u8>) -> int
    decreases a.len(),
{
    if a.len() == 0 {
        if b.len() == 0 {
            0
        } else {
            -1
        }
    } else if b.len() == 0 {
        1
    } else if a[0] != b[0] {
        compare_int(a[0] as int, b[0] as int)
    } else {
        compare_bytes(a.drop_first(), b.drop_first())
    }
}

/// The rank of a path component's kind: prefix, root, `.`, `..`, name.
pub open spec fn part_rank(p: PathPart) -> int {
    match p {
        PathPart::Prefix(_) => 0,
        PathPart::RootDir => 1,
        PathPart::CurDir => 2,
        PathPart::ParentDir => 3,
        PathPart::Normal(_) => 4,
    }
}

/// The text of a path component (empty for root, `.` and `..`).
pub open spec fn part_text(p: PathPart) -> Seq<u8> {
    match p {
        PathPart::Prefix(t) => t@,
        PathPart::Normal(t) => t@,
        _ => seq![],
    }
}

/// Comparison of path components: by kind, then by text.
pub open spec fn compare_part(a: PathPart, b: PathPart) -> int {
    if part_rank(a) != part_rank(b) {
        compare_int(part_rank(a), part_rank(b))
    } else {
        compare_bytes(part_text(a), part_text(b))
    }
}

/// Lexicographic comparison of paths by their components.
pub open spec fn compare_parts(a: Seq<PathPart>, b: Seq<PathPart>) -> int
    decreases a.len(),
{
    if a.len() == 0 {
        if b.len() == 0 {
            0
        } else {
            -1
        }
    } else if b.len() == 0 {
        1
    } else if compare_part(a[0], b[0]) != 0 {
        compare_part(a[0], b[0])
    } else {
        compare_parts(a.drop_first(), b.drop_first())
    }
}

/// Comparison of located findings: path, then line, then column, then message.
pub open spec fn compare_located(a: Located, b: Located) -> int {
    if compare_parts(a.path@, b.path@) != 0 {
        compare_parts(a.path@, b.path@)
    } else if a.line != b.line {
        compare_int(a.line as int, b.line as int)
    } else if a.col != b.col {
        compare_int(a.col as int, b.col as int)
    } else {
        compare_bytes(a.message@, b.message@)
    }
}

proof fn lemma_bytes(a: Seq<u8>, b: Seq<u8>, c: Seq<u8>)
    ensures
        compare_bytes(a, b) == -compare_bytes(b, a),
        -1 <= compare_bytes(a, b) <= 1,
        compare_bytes(a, b) == 0 ==> a == b,
        compare_bytes(a, a) == 0,
        compare_bytes(a, b) <= 0 && compare_bytes(b, c) <= 0 ==> compare_bytes(a, c) <= 0,
        compare_bytes(a, b) < 0 && compare_bytes(b, c) <= 0 ==> compare_bytes(a, c) < 0,
        compare_bytes(a, b) <= 0 && compare_bytes(b, c) < 0 ==> compare_bytes(a, c) < 0,
    decreases a.len(),
{
    if a.len() > 0 && b.len() > 0 && c.len() > 0 {
        lemma_bytes(a.drop_first(), b.drop_first(), c.drop_first());
    } else if a.len() > 0 && b.len() > 0 {
        lemma_bytes(a.drop_first(), b.drop_first(), b.drop_first());
    } else if a.len() > 0 && c.len() > 0 {
        lemma_bytes(a.drop_first(), c.drop_first(), c.drop_first());
    } else if a.len() > 0 {
        lemma_bytes(a.drop_first(), a.drop_first(), a.drop_first());
    }
    if a.len() > 0 && b.len() > 0 && a[0] == b[0] && compare_bytes(a.drop_first(), b.drop_first()) == 0 {
        assert(a =~= b) by {
            assert(a.drop_first() == b.drop_first());
            assert forall|i: int| 0 <= i < a.len() implies a[i] == b[i] by {
                if i > 0 {
                    assert(a[i] == a.drop_first()[i - 1]);
                    assert(b[i] == b.drop_first()[i - 1]);
                }
            }
        }
    }
}

proof fn lemma_part(a: PathPart, b: PathPart, c: PathPart)
    ensures
        compare_part(a, b) == -compare_part(b, a),
        -1 <= compare_part(a, b) <= 1,
        compare_part(a, a) == 0,
        compare_part(a, b) <= 0 && compare_part(b, c) <= 0 ==> compare_part(a, c) <= 0,
        compare_part(a, b) < 0 && compare_part(b, c) <= 0 ==> compare_part(a, c) < 0,
        compare_part(a, b) <= 0 && compare_part(b, c) < 0 ==> compare_part(a, c) < 0,
{
    lemma_bytes(part_text(a), part_text(b), part_text(c));
    lemma_bytes(part_text(b), part_text(a), part_text(a));
    lemma_bytes(part_text(a), part_text(a), part_text(a));
}

proof fn lemma_parts(a: Seq<PathPart>, b: Seq<PathPart>, c: Seq<PathPart>)
    ensures
        compare_parts(a, b) == -compare_parts(b, a),
        -1 <= compare_parts(a, b) <= 1,
        compare_parts(a, a) == 0,
        compare_parts(a, b) <= 0 && compare_parts(b, c) <= 0 ==> compare_parts(a, c) <= 0,
        compare_parts(a, b) < 0 && compare_parts(b, c) <= 0 ==> compare_parts(a, c) < 0,
        compare_parts(a, b) <= 0 && compare_parts(b, c) < 0 ==> compare_parts(a, c) < 0,
    decreases a.len(),
{
    if a.len() > 0 {
        lemma_part(a[0], a[0], a[0]);
    }
    if a.len() > 0 && b.len() > 0 {
        lemma_part(a[0], b[0], b[0]);
        lemma_part(b[0], a[0], a[0]);
    }
    if a.len() > 0 && b.len() > 0 && c.len() > 0 {
        lemma_part(a[0], b[0], c[0]);
        lemma_parts(a.drop_first(), b.drop_first(), c.drop_first());
    } else if a.len() > 0 && b.len() > 0 {
        lemma_parts(a.drop_first(), b.drop_first(), b.drop_first());
    } else if a.len() > 0 {
        lemma_parts(a.drop_first(), a.drop_first(), a.drop_first());
    }
}

/// `compare_located` is a total preorder: it is antisymmetric and transitive,
/// also where one step is strict.
pub proof fn lemma_located(a: Located, b: Located, c: Located)
    ensures
        compare_located(a, b) == -compare_located(b, a),
        -1 <= compare_located(a, b) <= 1,
        compare_located(a, a) == 0,
        compare_located(a, b) <= 0 && compare_located(b, c) <= 0 ==> compare_located(a, c) <= 0,
        compare_located(a, b) < 0 && compare_located(b, c) <= 0 ==> compare_located(a, c) < 0,
        compare_located(a, b) <= 0 && compare_located(b, c) < 0 ==> compare_located(a, c) < 0,
{
    lemma_parts(a.path@, b.path@, c.path@);
    lemma_parts(a.path@, a.path@, a.path@);
    lemma_bytes(a.message@, b.message@, c.message@);
    lemma_bytes(a.message@, a.message@, a.message@);
    lemma_bytes(b.message@, c.message@, c.message@);
    lemma_bytes(a.message@, c.message@, c.message@);
    lemma_parts(b.path@, c.path@, c.path@);
    lemma_parts(a.path@, c.path@, c.path@);
}

/// Lexicographic comparison of byte strings: -1, 0 or 1.
pub fn compare_byte_strings(a: &[u8], b: &[u8]) -> (r: i8)
    ensures
        r == compare_bytes(a@, b@),
{
    let mut i: usize = 0;
    assert(a@.skip(0) =~= a@);
    assert(b@.skip(0) =~= b@);
    while i < a.len() && i < b.len() && a[i] == b[i]
        invariant
            i <= a.len(),
            i <= b.len(),
            compare_bytes(a@, b@) == compare_bytes(a@.skip(i as int), b@.skip(i as int)),
        decreases a.len() - i,
    {
        assert(a@.skip(i as int).drop_first() =~= a@.skip(i + 1));
        assert(b@.skip(i as int).drop_first() =~= b@.skip(i + 1));
        i = i + 1;
    }
    if i == a.len() {
        if i == b.len() {
            0
        } else {
            -1
        }
    } else if i == b.len() {
        1
    } else if a[i] < b[i] {
        -1
    } else {
        1
    }
}

fn rank(p: &PathPart) -> (r: i8)
    ensures
        r == part_rank(*p),
{
    match p {
        PathPart::Prefix(_) => 0,
        PathPart::RootDir => 1,
        PathPart::CurDir => 2,
        PathPart::ParentDir => 3,
        PathPart::Normal(_) => 4,
    }
}

fn compare_path_part(a: &PathPart, b: &PathPart) -> (r: i8)
    ensures
        r == compare_part(*a, *b),
{
    let ra = rank(a);
    let rb = rank(b);
    if ra < rb {
        return -1;
    }
    if ra > rb {
        return 1;
    }
    let empty: Vec<u8> = Vec::new();
    let ta = match a {
        PathPart::Prefix(t) => t,
        PathPart::Normal(t) => t,
        _ => &empty,
    };
    let tb = match b {
        PathPart::Prefix(t) => t,
        PathPart::Normal(t) => t,
        _ => &empty,
    };
    assert(empty@ =~= Seq::<u8>::empty());
    compare_byte_strings(ta.as_slice(), tb.as_slice())
}

fn compare_paths(a: &Vec<PathPart>, b: &Vec<PathPart>) -> (r: i8)
    ensures
        r == compare_parts(a@, b@),
{
    let mut i: usize = 0;
    assert(a@.skip(0) =~= a@);
    assert(b@.skip(0) =~= b@);
    while i < a.len() && i < b.len()
        invariant
            i <= a.len(),
            i <= b.len(),
            compare_parts(a@, b@) == compare_parts(a@.skip(i as int), b@.skip(i as int)),
        decreases a.len() - i,
    {
        let c = compare_path_part(&a[i], &b[i]);
        if c != 0 {
            return c;
        }
        assert(a@.skip(i as int).drop_first() =~= a@.skip(i + 1));
        assert(b@.skip(i as int).drop_first() =~= b@.skip(i + 1));
        i = i + 1;
    }
    if i == a.len() {
        if i == b.len() {
            0
        } else {
            -1
        }
    } else {
        1
    }
}

/// Compares two located findings: path, then line, then column, then message.
pub fn compare_findings(a: &Located, b: &Located) -> (r: i8)
    ensures
        r == compare_located(*a, *b),
{
    let c = compare_paths(&a.path, &b.path);
    if c != 0 {
        return c;
    }
    if a.line != b.line {
        return if a.line < b.line {
            -1
        } else {
            1
        };
    }
    if a.col != b.col {
        return if a.col < b.col {
            -1
        } else {
            1
        };
    }
    compare_byte_strings(a.message.as_slice(), b.message.as_slice())
}

/// `order` lists each index of `v` exactly once.
pub open spec fn is_permutation(order: Seq<usize>, n: int) -> bool {
    &&& order.len() == n
    &&& forall|p: int| 0 <= p < order.len() ==> order[p] < n
    &&& forall|p: int, q: int| 0 <= p < q < order.len() ==> order[p] != order[q]
}

/// Along `order` the findings of `v` never decrease, and findings that compare
/// equal keep the order they have in `v`.
pub open spec fn is_stable_sorted(v: Seq<Located>, order: Seq<usize>) -> bool {
    forall|p: int, q: int|
        0 <= p < q < order.len() ==> compare_located(v[order[p] as int], v[order[q] as int]) < 0
            || (compare_located(v[order[p] as int], v[order[q] as int]) == 0 && order[p]
            < order[q])
}

/// The indices of `v` in printing order: a stable sort by path, line, column
/// and message.
pub fn sort_located(v: &Vec<Located>) -> (order: Vec<usize>)
    ensures
        is_permutation(order@, v@.len() as int),
        is_stable_sorted(v@, order@),
{
    let mut order: Vec<usize> = Vec::new();
    let mut i: usize = 0;
    while i < v.len()
        invariant
            i <= v.len(),
            is_permutation(order@, i as int),
            is_stable_sorted(v@, order@),
        decreases v.len() - i,
    {
        let x = &v[i];
        let mut lo: usize = 0;
        let mut hi: usize = order.len();
        while lo < hi
            invariant
                0 <= lo <= hi <= order@.len(),
                i < v.len(),
                x == v@[i as int],
                is_permutation(order@, i as int),
                is_stable_sorted(v@, order@),
                forall|p: int| 0 <= p < lo ==> compare_located(v@[order@[p] as int], *x) <= 0,
                forall|p: int| hi <= p < order@.len() ==> compare_located(*x, v@[order@[p] as int]) < 0,
            decreases hi - lo,
        {
            let mid = lo + (hi - lo) / 2;
            let m = &v[order[mid]];
            if compare_findings(m, x) <= 0 {
                assert forall|p: int| 0 <= p < mid + 1 implies compare_located(
                    v@[order@[p] as int],
                    *x,
                ) <= 0 by {
                    lemma_located(v@[order@[p] as int], *m, *x);
                }
                lo = mid + 1;
            } else {
                assert forall|p: int| mid <= p < order@.len() implies compare_located(
                    *x,
                    v@[order@[p] as int],
                ) < 0 by {
                    lemma_located(*x, *m, v@[order@[p] as int]);
                    lemma_located(*m, *x, *x);
                }
                hi = mid;
            }
        }
        let ghost old_order = order@;
        order.insert(lo, i);
        assert forall|p: int, q: int| 0 <= p < q < order@.len() implies (compare_located(
            v@[order@[p] as int],
            v@[order@[q] as int],
        ) < 0 || (compare_located(v@[order@[p] as int], v@[order@[q] as int]) == 0 && order@[p]
            < order@[q])) by {
            if q == lo {
                assert(order@[p] == old_order[p]);
            } else if p == lo {
                assert(order@[q] == old_order[q - 1]);
            } else if p < lo && q > lo {
                assert(order@[p] == old_order[p]);
                assert(order@[q] == old_order[q - 1]);
            } else if q < lo {
                assert(order@[p] == old_order[p]);
                assert(order@[q] == old_order[q]);
            } else {
                assert(order@[p] == old_order[p - 1]);
                assert(order@[q] == old_order[q - 1]);
            }
        }
        assert forall|p: int, q: int| 0 <= p < q < order@.len() implies order@[p] != order@[q] by {
            if q == lo {
                assert(order@[p] == old_order[p]);
            } else if p == lo {
                assert(order@[q] == old_order[q - 1]);
            } else if p < lo && q > lo {
                assert(order@[p] == old_order[p]);
                assert(order@[q] == old_order[q - 1]);
            } else if q < lo {
                assert(order@[p] == old_order[p]);
                assert(order@[q] == old_order[q]);
            } else {
                assert(order@[p] == old_order[p - 1]);
                assert(order@[q] == old_order[q - 1]);
            }
        }
        assert forall|p: int| 0 <= p < order@.len() implies order@[p] < i + 1 by {
            if p < lo {
                assert(order@[p] == old_order[p]);
            } else if p > lo {
                assert(order@[p] == old_order[p - 1]);
            }
        }
        i = i + 1;
    }
    order
}

} // verus!
