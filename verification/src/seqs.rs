//! One sequence standing, unbroken, inside another.
use vstd::prelude::*;

verus! {

/// `a` stands, unbroken and in order, somewhere inside `b`.
pub open spec fn is_infix<A>(a: Seq<A>, b: Seq<A>) -> bool {
    exists|i: int| 0 <= i && i + a.len() <= b.len() && #[trigger] b.subrange(i, i + a.len()) == a
}

/// The middle of a concatenation stands inside it.
pub proof fn lemma_infix_concat<A>(x: Seq<A>, a: Seq<A>, y: Seq<A>)
    ensures
        is_infix(a, x + a + y),
{
    let b = x + a + y;
    assert(b.subrange(x.len() as int, (x.len() + a.len()) as int) =~= a);
}

/// Standing inside is transitive.
pub proof fn lemma_infix_trans<A>(a: Seq<A>, b: Seq<A>, c: Seq<A>)
    requires
        is_infix(a, b),
        is_infix(b, c),
    ensures
        is_infix(a, c),
{
    let i = choose|i: int| 0 <= i && i + a.len() <= b.len() && #[trigger] b.subrange(i, i + a.len()) == a;
    let j = choose|j: int| 0 <= j && j + b.len() <= c.len() && #[trigger] c.subrange(j, j + b.len()) == b;
    assert(c.subrange(j + i, j + i + a.len()) =~= b.subrange(i, i + a.len()));
}

/// Every element of a sequence standing inside another is an element of it.
pub proof fn lemma_infix_contains<A>(a: Seq<A>, b: Seq<A>, x: A)
    requires
        is_infix(a, b),
        a.contains(x),
    ensures
        b.contains(x),
{
    let i = choose|i: int| 0 <= i && i + a.len() <= b.len() && #[trigger] b.subrange(i, i + a.len()) == a;
    let k = choose|k: int| 0 <= k < a.len() && a[k] == x;
    assert(b.subrange(i, i + a.len())[k] == b[i + k]);
}

/// The left part of a concatenation stands inside it.
pub proof fn lemma_infix_left<A>(a: Seq<A>, b: Seq<A>)
    ensures
        is_infix(a, a + b),
{
    let i: int = 0;
    assert((a + b).subrange(i, i + a.len()) =~= a);
}

/// The right part of a concatenation stands inside it.
pub proof fn lemma_infix_right<A>(a: Seq<A>, b: Seq<A>)
    ensures
        is_infix(b, a + b),
{
    assert((a + b).subrange(a.len() as int, (a.len() + b.len()) as int) =~= b);
}

/// A sequence stands inside itself.
pub proof fn lemma_infix_self<A>(a: Seq<A>)
    ensures
        is_infix(a, a),
{
    let i: int = 0;
    assert(a.subrange(i, i + a.len()) =~= a);
}

/// Each part of a concatenation of three stands inside it.
pub proof fn lemma_infix_in3<A>(a: Seq<A>, b: Seq<A>, c: Seq<A>)
    ensures
        is_infix(a, a + b + c),
        is_infix(b, a + b + c),
        is_infix(c, a + b + c),
{
    lemma_infix_left(a, b);
    lemma_infix_right(a, b);
    lemma_infix_left(a + b, c);
    lemma_infix_right(a + b, c);
    lemma_infix_trans(a, a + b, a + b + c);
    lemma_infix_trans(b, a + b, a + b + c);
}

/// Each part of a concatenation of four stands inside it.
pub proof fn lemma_infix_in4<A>(a: Seq<A>, b: Seq<A>, c: Seq<A>, d: Seq<A>)
    ensures
        is_infix(a, a + b + c + d),
        is_infix(b, a + b + c + d),
        is_infix(c, a + b + c + d),
        is_infix(d, a + b + c + d),
{
    lemma_infix_in3(a, b, c);
    lemma_infix_left(a + b + c, d);
    lemma_infix_right(a + b + c, d);
    lemma_infix_trans(a, a + b + c, a + b + c + d);
    lemma_infix_trans(b, a + b + c, a + b + c + d);
    lemma_infix_trans(c, a + b + c, a + b + c + d);
}

} // verus!
