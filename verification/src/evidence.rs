//! Which synchronous functions reach a blocking call, through calls to other
//! synchronous functions, and the evidence for each.
//!
//! The search goes by rounds. Round 0 gives a synchronous function its first
//! blocking call, if it has one. Each later round gives a synchronous function
//! without evidence its first call to a synchronous function that has
//! evidence. The search stops when a round finds nothing new.
use vstd::prelude::*;
use crate::callgraph::{Function, FunctionView, function_views, site_views};
use crate::resolve::{target, is_target_table, opt_int};

verus! {

/// Why a synchronous function reaches a blocking call.
#[derive(Clone, Copy, Debug)]
pub struct Evidence {
    /// The site, of the function's own, that leads to the blocking call.
    pub site: usize,
    /// The synchronous function that the site calls; none when the site is
    /// itself a blocking call.
    pub via: Option<usize>,
    /// The round in which the evidence was found.
    pub depth: usize,
}

/// `Evidence` as plain values.
pub struct EvidenceView {
    pub site: int,
    pub via: Option<int>,
    pub depth: int,
}

impl View for Evidence {
    type V = EvidenceView;

    open spec fn view(&self) -> EvidenceView {
        EvidenceView { site: self.site as int, via: opt_int(self.via), depth: self.depth as int }
    }
}

/// An optional piece of evidence as plain values.
pub open spec fn opt_evidence(o: Option<Evidence>) -> Option<EvidenceView> {
    match o {
        Some(e) => Some(e@),
        None => None,
    }
}

/// The views of a list of optional evidence.
pub open spec fn evidence_views(v: Seq<Option<Evidence>>) -> Seq<Option<EvidenceView>> {
    v.map_values(|o: Option<Evidence>| opt_evidence(o))
}

/// The index of the first blocking site of function `f` at or after `i`.
pub open spec fn first_direct(fns: Seq<FunctionView>, f: int, i: int) -> Option<int>
    decreases fns[f].sites.len() - i,
{
    if i < 0 || i >= fns[f].sites.len() {
        None
    } else if fns[f].sites[i].blocking is Some {
        Some(i)
    } else {
        first_direct(fns, f, i + 1)
    }
}

/// The synchronous function that site `s` of function `f` calls, if any.
pub open spec fn sync_target(fns: Seq<FunctionView>, f: int, s: int) -> Option<int> {
    match target(fns, f, s) {
        Some(t) => if 0 <= t < fns.len() && !fns[t].is_async {
            Some(t)
        } else {
            None
        },
        None => None,
    }
}

/// The evidence of round 0: each synchronous function's first blocking site.
pub open spec fn initial(fns: Seq<FunctionView>) -> Seq<Option<EvidenceView>> {
    Seq::new(
        fns.len(),
        |f: int|
            if fns[f].is_async {
                None
            } else {
                match first_direct(fns, f, 0) {
                    Some(s) => Some(EvidenceView { site: s, via: None, depth: 0 }),
                    None => None,
                }
            },
    )
}

/// The first site of function `f`, at or after `i`, that calls a synchronous
/// function with evidence in `prev`, as evidence found in round `round`.
pub open spec fn first_via(
    fns: Seq<FunctionView>,
    prev: Seq<Option<EvidenceView>>,
    f: int,
    i: int,
    round: nat,
) -> Option<EvidenceView>
    decreases fns[f].sites.len() - i,
{
    if i < 0 || i >= fns[f].sites.len() {
        None
    } else {
        match sync_target(fns, f, i) {
            Some(t) => if prev[t] is Some {
                Some(EvidenceView { site: i, via: Some(t), depth: round as int })
            } else {
                first_via(fns, prev, f, i + 1, round)
            },
            None => first_via(fns, prev, f, i + 1, round),
        }
    }
}

/// Round `round` of the search on top of the evidence `prev`: evidence found
/// stays, and each synchronous function without evidence gets its first call
/// to a synchronous function with evidence.
pub open spec fn step(fns: Seq<FunctionView>, prev: Seq<Option<EvidenceView>>, round: nat) -> Seq<
    Option<EvidenceView>,
> {
    Seq::new(
        fns.len(),
        |f: int|
            if prev[f] is Some {
                prev[f]
            } else if fns[f].is_async {
                None
            } else {
                first_via(fns, prev, f, 0, round)
            },
    )
}

/// The evidence after round `r`.
pub open spec fn evidence_after(fns: Seq<FunctionView>, r: nat) -> Seq<Option<EvidenceView>>
    decreases r,
{
    if r == 0 {
        initial(fns)
    } else {
        step(fns, evidence_after(fns, (r - 1) as nat), r)
    }
}

/// `ev` is where the search stops: the evidence after some round, to which
/// the next round adds nothing.
pub open spec fn is_final_evidence(fns: Seq<FunctionView>, ev: Seq<Option<EvidenceView>>) -> bool {
    exists|k: nat| ev == evidence_after(fns, k) && #[trigger] step(fns, ev, k + 1) == ev
}

/// What the evidence of function `f` claims: `f` is synchronous, and its
/// site is a blocking call, or calls a synchronous function whose evidence
/// was found in an earlier round.
pub open spec fn evidence_holds(fns: Seq<FunctionView>, ev: Seq<Option<EvidenceView>>, f: int) -> bool {
    let e = ev[f]->0;
    &&& !fns[f].is_async
    &&& 0 <= e.site < fns[f].sites.len()
    &&& 0 <= e.depth
    &&& match e.via {
        None => fns[f].sites[e.site].blocking is Some,
        Some(t) => {
            &&& sync_target(fns, f, e.site) == Some(t)
            &&& ev[t] is Some
            &&& ev[t]->0.depth < e.depth
        },
    }
}

/// Every piece of evidence in `ev` holds.
pub open spec fn consistent(fns: Seq<FunctionView>, ev: Seq<Option<EvidenceView>>) -> bool {
    &&& ev.len() == fns.len()
    &&& forall|f: int| 0 <= f < fns.len() && #[trigger] ev[f] is Some ==> evidence_holds(fns, ev, f)
}

/// Whether the synchronous function `f` reaches one of its own blocking
/// calls, or, through at most `d` calls to synchronous functions, one of
/// theirs.
pub open spec fn blocks_within(fns: Seq<FunctionView>, f: int, d: nat) -> bool
    decreases d,
{
    &&& 0 <= f < fns.len()
    &&& !fns[f].is_async
    &&& {
        ||| exists|s: int| 0 <= s < fns[f].sites.len() && (#[trigger] fns[f].sites[s]).blocking is Some
        ||| d > 0 && exists|s: int|
            0 <= s < fns[f].sites.len() && (#[trigger] sync_target(fns, f, s) matches Some(t)
                && blocks_within(fns, t, (d - 1) as nat))
    }
}

/// The number of entries of `ev` that hold evidence.
pub open spec fn count_some(ev: Seq<Option<EvidenceView>>) -> int
    decreases ev.len(),
{
    if ev.len() == 0 {
        0
    } else {
        count_some(ev.drop_last()) + if ev.last() is Some {
            1int
        } else {
            0int
        }
    }
}

proof fn lemma_first_direct(fns: Seq<FunctionView>, f: int, i: int)
    requires
        0 <= f < fns.len(),
        0 <= i,
    ensures
        first_direct(fns, f, i) matches Some(s) ==> i <= s < fns[f].sites.len()
            && fns[f].sites[s].blocking is Some,
        first_direct(fns, f, i) is None ==> forall|s: int|
            i <= s < fns[f].sites.len() ==> (#[trigger] fns[f].sites[s]).blocking is None,
    decreases fns[f].sites.len() - i,
{
    if i < fns[f].sites.len() {
        lemma_first_direct(fns, f, i + 1);
    }
}

proof fn lemma_first_via(fns: Seq<FunctionView>, prev: Seq<Option<EvidenceView>>, f: int, i: int, round: nat)
    requires
        0 <= f < fns.len(),
        0 <= i,
        prev.len() == fns.len(),
    ensures
        first_via(fns, prev, f, i, round) matches Some(e) ==> {
            &&& i <= e.site < fns[f].sites.len()
            &&& e.depth == round
            &&& sync_target(fns, f, e.site) matches Some(t) && prev[t] is Some && e.via == Some(t)
        },
        first_via(fns, prev, f, i, round) is None ==> forall|s: int|
            i <= s < fns[f].sites.len() ==> (#[trigger] sync_target(fns, f, s) matches Some(t)
                ==> prev[t] is None),
        first_via(fns, prev, f, i, round) is None <==> forall|r: nat|
            #[trigger] first_via(fns, prev, f, i, r) is None,
    decreases fns[f].sites.len() - i,
{
    if i < fns[f].sites.len() {
        lemma_first_via(fns, prev, f, i + 1, round);
        assert forall|r: nat| first_via(fns, prev, f, i, round) is None ==> #[trigger] first_via(
            fns,
            prev,
            f,
            i,
            r,
        ) is None by {
            lemma_first_via(fns, prev, f, i + 1, r);
        }
    }
}

/// After every round, each piece of evidence holds and was found in a round
/// not after it.
pub proof fn lemma_rounds(fns: Seq<FunctionView>, r: nat)
    ensures
        consistent(fns, evidence_after(fns, r)),
        forall|f: int|
            0 <= f < fns.len() && #[trigger] evidence_after(fns, r)[f] is Some
                ==> evidence_after(fns, r)[f]->0.depth <= r,
    decreases r,
{
    let ev = evidence_after(fns, r);
    if r == 0 {
        assert forall|f: int| 0 <= f < fns.len() && #[trigger] ev[f] is Some implies evidence_holds(
            fns,
            ev,
            f,
        ) && ev[f]->0.depth <= r by {
            lemma_first_direct(fns, f, 0);
        }
    } else {
        let prev = evidence_after(fns, (r - 1) as nat);
        lemma_rounds(fns, (r - 1) as nat);
        assert forall|f: int| 0 <= f < fns.len() && #[trigger] ev[f] is Some implies evidence_holds(
            fns,
            ev,
            f,
        ) && ev[f]->0.depth <= r by {
            if prev[f] is Some {
                assert(evidence_holds(fns, prev, f));
                if let Some(t) = prev[f]->0.via {
                    assert(ev[t] == prev[t]);
                }
            } else {
                lemma_first_via(fns, prev, f, 0, r);
                let t = ev[f]->0.via->0;
                assert(ev[t] == prev[t]);
            }
        }
    }
}

/// Evidence, once found, stays as it is.
pub proof fn lemma_monotone(fns: Seq<FunctionView>, a: nat, b: nat, f: int)
    requires
        a <= b,
        0 <= f < fns.len(),
        evidence_after(fns, a)[f] is Some,
    ensures
        evidence_after(fns, b)[f] == evidence_after(fns, a)[f],
    decreases b - a,
{
    if a < b {
        lemma_monotone(fns, a, (b - 1) as nat, f);
    }
}

/// A round that finds nothing new is followed by rounds that find nothing new.
pub proof fn lemma_stable(fns: Seq<FunctionView>, k: nat, m: nat)
    requires
        k <= m,
        step(fns, evidence_after(fns, k), k + 1) == evidence_after(fns, k),
    ensures
        evidence_after(fns, m) == evidence_after(fns, k),
    decreases m - k,
{
    if k < m {
        lemma_stable(fns, k, (m - 1) as nat);
        let ev = evidence_after(fns, k);
        assert forall|f: int| 0 <= f < fns.len() implies #[trigger] step(fns, ev, m)[f] == ev[f] by {
            if ev[f] is None && !fns[f].is_async {
                assert(step(fns, ev, k + 1)[f] == ev[f]);
                lemma_first_via(fns, ev, f, 0, k + 1);
            }
        }
        assert(step(fns, ev, m) =~= ev);
    }
}

/// A function that reaches a blocking call through at most `d` calls has
/// evidence after round `d`.
pub proof fn lemma_blocks_found(fns: Seq<FunctionView>, f: int, d: nat)
    requires
        blocks_within(fns, f, d),
    ensures
        evidence_after(fns, d)[f] is Some,
    decreases d,
{
    if exists|s: int| 0 <= s < fns[f].sites.len() && (#[trigger] fns[f].sites[s]).blocking is Some {
        lemma_first_direct(fns, f, 0);
        assert(evidence_after(fns, 0)[f] is Some);
        lemma_monotone(fns, 0, d, f);
    } else {
        let s = choose|s: int|
            0 <= s < fns[f].sites.len() && (#[trigger] sync_target(fns, f, s) matches Some(t)
                && blocks_within(fns, t, (d - 1) as nat));
        let t = sync_target(fns, f, s)->0;
        lemma_blocks_found(fns, t, (d - 1) as nat);
        let prev = evidence_after(fns, (d - 1) as nat);
        if prev[f] is None {
            lemma_first_via(fns, prev, f, 0, d);
        }
    }
}

/// A function with evidence reaches a blocking call.
pub proof fn lemma_found_blocks(fns: Seq<FunctionView>, ev: Seq<Option<EvidenceView>>, f: int) -> (d: nat)
    requires
        consistent(fns, ev),
        0 <= f < fns.len(),
        ev[f] is Some,
    ensures
        blocks_within(fns, f, d),
    decreases ev[f]->0.depth,
{
    let e = ev[f]->0;
    assert(evidence_holds(fns, ev, f));
    match e.via {
        None => {
            assert(fns[f].sites[e.site].blocking is Some);
            0
        },
        Some(t) => {
            assert(evidence_holds(fns, ev, t));
            let dt = lemma_found_blocks(fns, ev, t);
            assert(sync_target(fns, f, e.site) matches Some(u) && blocks_within(fns, u, dt));
            dt + 1
        },
    }
}

/// Where the search stops, a function has evidence exactly when it is
/// synchronous and reaches a blocking call, its own or, through calls to
/// synchronous functions, theirs; and every piece of evidence holds.
pub proof fn law_evidence_is_reachability(fns: Seq<FunctionView>, ev: Seq<Option<EvidenceView>>, f: int)
    requires
        is_final_evidence(fns, ev),
        0 <= f < fns.len(),
    ensures
        consistent(fns, ev),
        ev[f] is Some <==> exists|d: nat| blocks_within(fns, f, d),
{
    let k = choose|k: nat| ev == evidence_after(fns, k) && #[trigger] step(fns, ev, k + 1) == ev;
    lemma_rounds(fns, k);
    if ev[f] is Some {
        let d = lemma_found_blocks(fns, ev, f);
        assert(blocks_within(fns, f, d));
    }
    if exists|d: nat| blocks_within(fns, f, d) {
        let d = choose|d: nat| blocks_within(fns, f, d);
        lemma_blocks_found(fns, f, d);
        let m = if d <= k {
            k
        } else {
            d
        };
        lemma_monotone(fns, d, m, f);
        lemma_stable(fns, k, m);
    }
}

proof fn lemma_count_bounds(ev: Seq<Option<EvidenceView>>)
    ensures
        0 <= count_some(ev) <= ev.len(),
        count_some(ev) == ev.len() ==> forall|i: int| 0 <= i < ev.len() ==> (#[trigger] ev[i]) is Some,
    decreases ev.len(),
{
    if ev.len() > 0 {
        lemma_count_bounds(ev.drop_last());
        assert forall|i: int| count_some(ev) == ev.len() && 0 <= i < ev.len() implies (
        #[trigger] ev[i]) is Some by {
            if i < ev.len() - 1 {
                assert(ev.drop_last()[i] == ev[i]);
            }
        }
    }
}

/// The index of the first blocking site of function `f`.
fn first_blocking_site(fns: &Vec<Function>, f: usize) -> (r: Option<usize>)
    requires
        f < fns@.len(),
    ensures
        opt_int(r) == first_direct(function_views(fns@), f as int, 0),
{
    let ghost fv = function_views(fns@);
    let sites = &fns[f].sites;
    assert(fv[f as int].sites == site_views(sites@));
    let mut s: usize = 0;
    while s < sites.len()
        invariant
            fv == function_views(fns@),
            f < fns@.len(),
            fv[f as int].sites == site_views(sites@),
            s <= sites@.len(),
            first_direct(fv, f as int, 0) == first_direct(fv, f as int, s as int),
        decreases sites@.len() - s,
    {
        assert(fv[f as int].sites[s as int] == sites@[s as int]@);
        if sites[s].blocking.is_some() {
            return Some(s);
        }
        s = s + 1;
    }
    None
}

/// The evidence of round 0.
fn initial_evidence(fns: &Vec<Function>) -> (r: Vec<Option<Evidence>>)
    ensures
        evidence_views(r@) == initial(function_views(fns@)),
{
    let ghost fv = function_views(fns@);
    let mut r: Vec<Option<Evidence>> = Vec::new();
    let mut f: usize = 0;
    while f < fns.len()
        invariant
            fv == function_views(fns@),
            f <= fns@.len(),
            r@.len() == f,
            forall|g: int| 0 <= g < f ==> opt_evidence(#[trigger] r@[g]) == initial(fv)[g],
        decreases fns@.len() - f,
    {
        assert(fv[f as int] == fns@[f as int]@);
        if fns[f].is_async {
            r.push(None);
        } else {
            match first_blocking_site(fns, f) {
                Some(s) => r.push(Some(Evidence { site: s, via: None, depth: 0 })),
                None => r.push(None),
            }
        }
        f = f + 1;
    }
    assert(evidence_views(r@) =~= initial(fv));
    r
}

/// The first site of function `f` that calls a synchronous function with
/// evidence in `prev`, as evidence found in round `round`.
fn first_via_site(
    fns: &Vec<Function>,
    table: &Vec<Vec<Option<usize>>>,
    prev: &Vec<Option<Evidence>>,
    f: usize,
    round: usize,
) -> (r: Option<Evidence>)
    requires
        is_target_table(function_views(fns@), table@),
        prev@.len() == fns@.len(),
        f < fns@.len(),
    ensures
        opt_evidence(r) == first_via(function_views(fns@), evidence_views(prev@), f as int, 0, round as nat),
{
    let ghost fv = function_views(fns@);
    let ghost pv = evidence_views(prev@);
    let row = &table[f];
    assert(row@.len() == fv[f as int].sites.len());
    let mut s: usize = 0;
    while s < row.len()
        invariant
            fv == function_views(fns@),
            pv == evidence_views(prev@),
            is_target_table(fv, table@),
            prev@.len() == fns@.len(),
            f < fns@.len(),
            *row == table@[f as int],
            row@.len() == fv[f as int].sites.len(),
            s <= row@.len(),
            first_via(fv, pv, f as int, 0, round as nat) == first_via(fv, pv, f as int, s as int, round as nat),
        decreases row@.len() - s,
    {
        assert(opt_int(row@[s as int]) == crate::resolve::target(fv, f as int, s as int));
        if let Some(t) = row[s] {
            if t < fns.len() {
                assert(fv[t as int] == fns@[t as int]@);
                assert(pv[t as int] == opt_evidence(prev@[t as int]));
                if !fns[t].is_async && prev[t].is_some() {
                    return Some(Evidence { site: s, via: Some(t), depth: round });
                }
            }
        }
        s = s + 1;
    }
    None
}

/// One round of the search on top of `prev`: the new evidence, and how many
/// functions got evidence in this round.
fn step_evidence(
    fns: &Vec<Function>,
    table: &Vec<Vec<Option<usize>>>,
    prev: &Vec<Option<Evidence>>,
    round: usize,
) -> (r: (Vec<Option<Evidence>>, usize))
    requires
        is_target_table(function_views(fns@), table@),
        prev@.len() == fns@.len(),
    ensures
        evidence_views(r.0@) == step(function_views(fns@), evidence_views(prev@), round as nat),
        count_some(evidence_views(r.0@)) == count_some(evidence_views(prev@)) + r.1,
        r.1 == 0 ==> evidence_views(r.0@) == evidence_views(prev@),
{
    let ghost fv = function_views(fns@);
    let ghost pv = evidence_views(prev@);
    let ghost st = step(fv, pv, round as nat);
    let mut next: Vec<Option<Evidence>> = Vec::new();
    let mut added: usize = 0;
    let mut f: usize = 0;
    while f < fns.len()
        invariant
            fv == function_views(fns@),
            pv == evidence_views(prev@),
            st == step(fv, pv, round as nat),
            is_target_table(fv, table@),
            prev@.len() == fns@.len(),
            f <= fns@.len(),
            next@.len() == f,
            added <= f,
            forall|g: int| 0 <= g < f ==> opt_evidence(#[trigger] next@[g]) == st[g],
            count_some(evidence_views(next@)) == count_some(pv.take(f as int)) + added,
            added == 0 ==> evidence_views(next@) == pv.take(f as int),
        decreases fns@.len() - f,
    {
        assert(fv[f as int] == fns@[f as int]@);
        assert(pv[f as int] == opt_evidence(prev@[f as int]));
        let e = if prev[f].is_some() {
            prev[f]
        } else if fns[f].is_async {
            None
        } else {
            first_via_site(fns, table, prev, f, round)
        };
        let ghost before = next@;
        next.push(e);
        assert(evidence_views(next@) =~= evidence_views(before).push(opt_evidence(e)));
        assert(pv.take(f + 1) =~= pv.take(f as int).push(pv[f as int]));
        assert(evidence_views(next@).drop_last() =~= evidence_views(before));
        assert(pv.take(f + 1).drop_last() =~= pv.take(f as int));
        if prev[f].is_none() && e.is_some() {
            added = added + 1;
        }
        f = f + 1;
    }
    assert(evidence_views(next@) =~= st);
    assert(pv.take(fns@.len() as int) =~= pv);
    (next, added)
}

/// The number of functions with evidence.
fn count_known(ev: &Vec<Option<Evidence>>) -> (r: usize)
    ensures
        r == count_some(evidence_views(ev@)),
{
    let ghost v = evidence_views(ev@);
    let mut n: usize = 0;
    let mut i: usize = 0;
    while i < ev.len()
        invariant
            v == evidence_views(ev@),
            i <= ev@.len(),
            n == count_some(v.take(i as int)),
        decreases ev@.len() - i,
    {
        proof {
            lemma_count_bounds(v.take(i as int));
        }
        assert(v.take(i + 1).drop_last() =~= v.take(i as int));
        assert(v[i as int] == opt_evidence(ev@[i as int]));
        if ev[i].is_some() {
            n = n + 1;
        }
        i = i + 1;
    }
    assert(v.take(ev@.len() as int) =~= v);
    n
}

/// Searches, round by round, for the synchronous functions that reach a
/// blocking call, until a round finds nothing new. `table` holds the function
/// that each site resolves to.
pub fn blocking_evidence(fns: &Vec<Function>, table: &Vec<Vec<Option<usize>>>) -> (r: Vec<
    Option<Evidence>,
>)
    requires
        is_target_table(function_views(fns@), table@),
    ensures
        is_final_evidence(function_views(fns@), evidence_views(r@)),
        consistent(function_views(fns@), evidence_views(r@)),
{
    let ghost fv = function_views(fns@);
    let mut ev = initial_evidence(fns);
    let mut known = count_known(&ev);
    let mut k: usize = 0;
    let mut done = false;
    proof {
        lemma_count_bounds(evidence_views(ev@));
    }
    while !done
        invariant
            fv == function_views(fns@),
            is_target_table(fv, table@),
            evidence_views(ev@) == evidence_after(fv, k as nat),
            ev@.len() == fns@.len(),
            known == count_some(evidence_views(ev@)),
            k <= known <= fns@.len(),
            done ==> step(fv, evidence_views(ev@), (k + 1) as nat) == evidence_views(ev@),
        decreases fns@.len() - known + if done {
            0int
        } else {
            1int
        },
    {
        if known == fns.len() {
            proof {
                let v = evidence_views(ev@);
                lemma_count_bounds(v);
                assert(step(fv, v, (k + 1) as nat) =~= v);
            }
            done = true;
        } else {
            let (next, added) = step_evidence(fns, table, &ev, k + 1);
            if added == 0 {
                done = true;
            } else {
                proof {
                    lemma_count_bounds(evidence_views(next@));
                }
                ev = next;
                known = known + added;
                k = k + 1;
            }
        }
    }
    proof {
        lemma_rounds(fv, k as nat);
        assert(step(fv, evidence_views(ev@), (k + 1) as nat) == evidence_views(ev@));
    }
    ev
}

} // verus!
