//! Resolving a call to a function by its callee's name alone: a method of the
//! caller's own class first, then a function of the caller's file, then a
//! function of the whole program. A name that has several candidates in the
//! first scope that has any is ambiguous and resolves to nothing.
use vstd::prelude::*;
use crate::bytes::bytes_eq;
use crate::callgraph::{Function, FunctionView, function_views};

verus! {

/// Where a name is looked up.
#[derive(Clone, Copy, PartialEq, Eq, Structural, Debug)]
pub enum Scope {
    /// The methods of the caller's class, in the caller's file.
    Class,
    /// The functions of the caller's file.
    File,
    /// All functions.
    Program,
}

/// Whether function `j` is a candidate for the name `name` called from
/// function `caller`, within `scope`.
pub open spec fn in_scope(fns: Seq<FunctionView>, caller: int, j: int, name: Seq<u8>, scope: Scope) -> bool {
    &&& fns[j].name == name
    &&& match scope {
        Scope::Class => fns[caller].class is Some && fns[j].file == fns[caller].file
            && fns[j].class == fns[caller].class,
        Scope::File => fns[j].file == fns[caller].file,
        Scope::Program => true,
    }
}

/// The candidates among the first `k` functions, in order.
pub open spec fn candidates(fns: Seq<FunctionView>, caller: int, name: Seq<u8>, scope: Scope, k: int) -> Seq<
    int,
>
    decreases k,
{
    if k <= 0 {
        seq![]
    } else {
        candidates(fns, caller, name, scope, k - 1) + if in_scope(fns, caller, k - 1, name, scope) {
            seq![k - 1]
        } else {
            seq![]
        }
    }
}

/// The outcome of looking a name up in one scope: `None` when it has no
/// candidate there, `Some(Some(j))` when `j` is its only one, `Some(None)`
/// when it has several.
pub open spec fn lookup(fns: Seq<FunctionView>, caller: int, name: Seq<u8>, scope: Scope) -> Option<
    Option<int>,
> {
    let c = candidates(fns, caller, name, scope, fns.len() as int);
    if c.len() == 0 {
        None
    } else if c.len() == 1 {
        Some(Some(c[0]))
    } else {
        Some(None)
    }
}

/// The function that a call named `name` in function `caller` resolves to:
/// the outcome of the first scope, of class, file and program, in which the
/// name has a candidate.
pub open spec fn resolve(fns: Seq<FunctionView>, caller: int, name: Seq<u8>) -> Option<int> {
    match lookup(fns, caller, name, Scope::Class) {
        Some(r) => r,
        None => match lookup(fns, caller, name, Scope::File) {
            Some(r) => r,
            None => match lookup(fns, caller, name, Scope::Program) {
                Some(r) => r,
                None => None,
            },
        },
    }
}

/// The function that site `s` of function `f` resolves to, if its callee has
/// a name.
pub open spec fn target(fns: Seq<FunctionView>, f: int, s: int) -> Option<int> {
    match fns[f].sites[s].callee {
        Some(name) => resolve(fns, f, name),
        None => None,
    }
}

/// An optional index as an optional integer.
pub open spec fn opt_int(o: Option<usize>) -> Option<int> {
    match o {
        Some(i) => Some(i as int),
        None => None,
    }
}

/// Whether the optional names `a` and `b` are equal.
fn same_class(a: &Option<Vec<u8>>, b: &Option<Vec<u8>>) -> (r: bool)
    ensures
        r == (match (*a, *b) {
            (Some(x), Some(y)) => x@ == y@,
            (None, None) => true,
            _ => false,
        }),
{
    match (a, b) {
        (Some(x), Some(y)) => bytes_eq(x.as_slice(), y.as_slice()),
        (None, None) => true,
        _ => false,
    }
}

/// Looks the name `name`, called from function `caller`, up in `scope`.
pub fn lookup_in(fns: &Vec<Function>, caller: usize, name: &[u8], scope: Scope) -> (r: Option<
    Option<usize>,
>)
    requires
        caller < fns@.len(),
    ensures
        match lookup(function_views(fns@), caller as int, name@, scope) {
            None => r is None,
            Some(o) => r matches Some(x) && opt_int(x) == o,
        },
{
    let ghost fv = function_views(fns@);
    let mut found: Option<usize> = None;
    let mut count: usize = 0;
    let mut j: usize = 0;
    while j < fns.len()
        invariant
            fv == function_views(fns@),
            caller < fns@.len(),
            j <= fns@.len(),
            count <= 2,
            count == 0 <==> candidates(fv, caller as int, name@, scope, j as int).len() == 0,
            count == 1 <==> candidates(fv, caller as int, name@, scope, j as int).len() == 1,
            count == 1 ==> found == Some(candidates(fv, caller as int, name@, scope, j as int)[0] as usize),
            count == 1 ==> 0 <= candidates(fv, caller as int, name@, scope, j as int)[0] < j,
        decreases fns@.len() - j,
    {
        let g = &fns[j];
        let c = &fns[caller];
        assert(fv[j as int] == g@);
        assert(fv[caller as int] == c@);
        let hit = bytes_eq(g.name.as_slice(), name) && match scope {
            Scope::Class => c.class.is_some() && g.file == c.file && same_class(&g.class, &c.class),
            Scope::File => g.file == c.file,
            Scope::Program => true,
        };
        assert(hit == in_scope(fv, caller as int, j as int, name@, scope));
        let ghost before = candidates(fv, caller as int, name@, scope, j as int);
        if hit {
            if count == 0 {
                found = Some(j);
            }
            if count < 2 {
                count = count + 1;
            }
        }
        assert(candidates(fv, caller as int, name@, scope, j + 1) == before + if hit {
            seq![j as int]
        } else {
            seq![]
        });
        j = j + 1;
    }
    assert(fv.len() == fns@.len());
    if count == 0 {
        None
    } else if count == 1 {
        Some(found)
    } else {
        Some(None)
    }
}

/// The function that a call named `name` in function `caller` resolves to.
pub fn resolve_name(fns: &Vec<Function>, caller: usize, name: &[u8]) -> (r: Option<usize>)
    requires
        caller < fns@.len(),
    ensures
        opt_int(r) == resolve(function_views(fns@), caller as int, name@),
{
    match lookup_in(fns, caller, name, Scope::Class) {
        Some(r) => r,
        None => match lookup_in(fns, caller, name, Scope::File) {
            Some(r) => r,
            None => match lookup_in(fns, caller, name, Scope::Program) {
                Some(r) => r,
                None => None,
            },
        },
    }
}

/// The resolved function of every site of every function: entry `s` of row
/// `f` is `target(f, s)`.
pub open spec fn is_target_table(fns: Seq<FunctionView>, table: Seq<Vec<Option<usize>>>) -> bool {
    &&& table.len() == fns.len()
    &&& forall|f: int| 0 <= f < fns.len() ==> #[trigger] table[f]@.len() == fns[f].sites.len()
    &&& forall|f: int, s: int|
        0 <= f < fns.len() && 0 <= s < fns[f].sites.len() ==> opt_int(#[trigger] table[f]@[s])
            == target(fns, f, s)
}

/// Resolves every site of every function.
pub fn resolve_all(fns: &Vec<Function>) -> (r: Vec<Vec<Option<usize>>>)
    ensures
        is_target_table(function_views(fns@), r@),
{
    let ghost fv = function_views(fns@);
    let mut table: Vec<Vec<Option<usize>>> = Vec::new();
    let mut f: usize = 0;
    while f < fns.len()
        invariant
            fv == function_views(fns@),
            f <= fns@.len(),
            table@.len() == f,
            forall|g: int| 0 <= g < f ==> #[trigger] table@[g]@.len() == fv[g].sites.len(),
            forall|g: int, s: int|
                0 <= g < f && 0 <= s < fv[g].sites.len() ==> opt_int(#[trigger] table@[g]@[s])
                    == target(fv, g, s),
        decreases fns@.len() - f,
    {
        let sites = &fns[f].sites;
        assert(fv[f as int].sites == crate::callgraph::site_views(sites@));
        let mut row: Vec<Option<usize>> = Vec::new();
        let mut s: usize = 0;
        while s < sites.len()
            invariant
                fv == function_views(fns@),
                f < fns@.len(),
                *sites == fns@[f as int].sites,
                fv[f as int].sites == crate::callgraph::site_views(sites@),
                s <= sites@.len(),
                row@.len() == s,
                forall|k: int| 0 <= k < s ==> opt_int(#[trigger] row@[k]) == target(fv, f as int, k),
            decreases sites@.len() - s,
        {
            assert(fv[f as int].sites[s as int] == sites@[s as int]@);
            let t = match &sites[s].callee {
                Some(name) => resolve_name(fns, f, name.as_slice()),
                None => None,
            };
            row.push(t);
            s = s + 1;
        }
        table.push(row);
        f = f + 1;
    }
    table
}

proof fn lemma_candidates(fns: Seq<FunctionView>, caller: int, name: Seq<u8>, scope: Scope, k: int)
    ensures
        forall|i: int|
            0 <= i < candidates(fns, caller, name, scope, k).len() ==> {
                let j = #[trigger] candidates(fns, caller, name, scope, k)[i];
                0 <= j < k && in_scope(fns, caller, j, name, scope)
            },
    decreases k,
{
    if k > 0 {
        lemma_candidates(fns, caller, name, scope, k - 1);
        let prev = candidates(fns, caller, name, scope, k - 1);
        let c = candidates(fns, caller, name, scope, k);
        assert forall|i: int| 0 <= i < c.len() implies {
            let j = #[trigger] c[i];
            0 <= j < k && in_scope(fns, caller, j, name, scope)
        } by {
            if i < prev.len() {
                assert(c[i] == prev[i]);
            }
        }
    }
}

/// A call resolves only to a function of the program that bears the callee's
/// name and lies in the scope where the name was found: the caller's class,
/// its file, or the program.
pub proof fn law_resolved_function_has_the_name(fns: Seq<FunctionView>, caller: int, name: Seq<u8>)
    ensures
        resolve(fns, caller, name) matches Some(j) ==> {
            &&& 0 <= j < fns.len()
            &&& fns[j].name == name
            &&& (in_scope(fns, caller, j, name, Scope::Class) || in_scope(fns, caller, j, name, Scope::File)
                || in_scope(fns, caller, j, name, Scope::Program))
        },
{
    lemma_candidates(fns, caller, name, Scope::Class, fns.len() as int);
    lemma_candidates(fns, caller, name, Scope::File, fns.len() as int);
    lemma_candidates(fns, caller, name, Scope::Program, fns.len() as int);
}

/// Names are never guessed: where the first scope that has a candidate has
/// more than one, the call resolves to nothing.
pub proof fn law_ambiguous_name_resolves_to_nothing(fns: Seq<FunctionView>, caller: int, name: Seq<u8>, scope: Scope)
    requires
        candidates(fns, caller, name, scope, fns.len() as int).len() > 1,
        scope != Scope::Class ==> candidates(fns, caller, name, Scope::Class, fns.len() as int).len() == 0,
        scope == Scope::Program ==> candidates(fns, caller, name, Scope::File, fns.len() as int).len() == 0,
    ensures
        resolve(fns, caller, name) is None,
{
}

} // verus!
