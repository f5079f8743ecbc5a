//! The transitive mode of ASYNC200: a call, in an async function, to a
//! synchronous function that reaches a blocking call through calls to other
//! synchronous functions, reported with that chain of functions and the
//! place of the blocking call as evidence.
//!
//! A call that matches a blocking-call pattern itself is left to ASYNC200,
//! and a `# noqa` (or `# noqa: ASYNC200`) on the line of the call silences it.
use vstd::prelude::*;
use vstd::string::StringSliceAdditionalSpecFns;
use crate::bytes::push_all;
use crate::callgraph::{
    collect_functions, function_views, lemma_program_files, program_functions, site_views, Function,
    FunctionView, SourceFile,
};
use crate::checker::Pattern;
use crate::comments::{noqa_suppresses, spec_noqa_suppresses};
use crate::evidence::{
    blocking_evidence, consistent, evidence_after, evidence_holds, evidence_views, is_final_evidence,
    lemma_stable, opt_evidence, step, sync_target, Evidence, EvidenceView,
};
use crate::report::{column, line_bytes, line_number, line_starts, LineIndex};
use crate::resolve::{is_target_table, opt_int, resolve_all};

verus! {

/// The functions that the evidence of `t` passes through, `t` first, at most
/// `fuel` calls deep.
pub open spec fn chain(ev: Seq<Option<EvidenceView>>, t: int, fuel: nat) -> Seq<int>
    decreases fuel,
{
    if fuel > 0 && 0 <= t < ev.len() && ev[t] is Some && ev[t]->0.via is Some {
        seq![t] + chain(ev, ev[t]->0.via->0, (fuel - 1) as nat)
    } else {
        seq![t]
    }
}

/// The functions that the evidence of `t` passes through, from `t` to the
/// function whose own call is the blocking one.
pub open spec fn evidence_chain(ev: Seq<Option<EvidenceView>>, t: int) -> Seq<int> {
    chain(ev, t, ev[t]->0.depth as nat)
}

/// The chain of a function with evidence starts at it, ends at a function
/// whose evidence is its own blocking call, and holds only functions with
/// evidence; more fuel than its depth does not change it.
pub proof fn lemma_chain(fns: Seq<FunctionView>, ev: Seq<Option<EvidenceView>>, t: int, fuel: nat)
    requires
        consistent(fns, ev),
        0 <= t < fns.len(),
        ev[t] is Some,
        fuel >= ev[t]->0.depth,
    ensures
        chain(ev, t, fuel) == evidence_chain(ev, t),
        chain(ev, t, fuel).len() >= 1,
        chain(ev, t, fuel)[0] == t,
        forall|i: int|
            0 <= i < chain(ev, t, fuel).len() ==> 0 <= #[trigger] chain(ev, t, fuel)[i] < fns.len()
                && ev[chain(ev, t, fuel)[i]] is Some,
        ev[chain(ev, t, fuel).last()]->0.via is None,
    decreases ev[t]->0.depth,
{
    assert(evidence_holds(fns, ev, t));
    let e = ev[t]->0;
    if let Some(u) = e.via {
        assert(evidence_holds(fns, ev, u));
        lemma_chain(fns, ev, u, (fuel - 1) as nat);
        lemma_chain(fns, ev, u, (e.depth - 1) as nat);
        let c = chain(ev, t, fuel);
        let rest = chain(ev, u, (fuel - 1) as nat);
        assert(c == seq![t] + rest);
        assert forall|i: int| 0 <= i < c.len() implies 0 <= #[trigger] c[i] < fns.len() && ev[c[i]] is Some by {
            if i > 0 {
                assert(c[i] == rest[i - 1]);
            }
        }
        assert(c.last() == rest.last());
    }
}

/// The decimal digits of `n`.
pub open spec fn decimal(n: nat) -> Seq<u8>
    decreases n,
{
    if n < 10 {
        seq![(48 + n) as u8]
    } else {
        decimal(n / 10).push((48 + n % 10) as u8)
    }
}

/// Appends the decimal digits of `n`.
pub fn push_decimal(out: &mut Vec<u8>, n: u64)
    ensures
        final(out)@ == old(out)@ + decimal(n as nat),
    decreases n,
{
    if n >= 10 {
        push_decimal(out, n / 10);
    }
    let d = (n % 10) as u8;
    out.push(48u8 + d);
    assert(out@ =~= old(out)@ + decimal(n as nat));
}

/// The names of the functions `c`, joined by ` -> `.
pub open spec fn joined_names(fns: Seq<FunctionView>, c: Seq<int>) -> Seq<u8>
    decreases c.len(),
{
    if c.len() == 0 {
        seq![]
    } else if c.len() == 1 {
        fns[c[0]].name
    } else {
        joined_names(fns, c.drop_last()) + " -> ".spec_bytes() + fns[c.last()].name
    }
}

/// The message of a transitive finding: the glob of the pattern that the
/// blocking call matches, the chain of functions, and where the blocking call
/// is.
pub open spec fn transitive_message(glob: Seq<u8>, names: Seq<u8>, path: Seq<u8>, line: int, col: int) -> Seq<
    u8,
> {
    "ASYNC200T blocking sync call ".spec_bytes() + glob
        + " reachable from async function via ".spec_bytes() + names + " (".spec_bytes() + path
        + ":".spec_bytes() + decimal(line as nat) + ":".spec_bytes() + decimal(col as nat)
        + ")".spec_bytes()
}

/// A transitive finding: the file and the 1-based line and byte column of the
/// call, and the message.
pub struct TransitiveFinding {
    pub file: usize,
    pub line: usize,
    pub col: u64,
    pub message: Vec<u8>,
}

/// A transitive finding as plain values.
pub struct TransitiveFindingView {
    pub file: int,
    pub line: int,
    pub col: int,
    pub message: Seq<u8>,
}

impl View for TransitiveFinding {
    type V = TransitiveFindingView;

    open spec fn view(&self) -> TransitiveFindingView {
        TransitiveFindingView {
            file: self.file as int,
            line: self.line as int,
            col: self.col as int,
            message: self.message@,
        }
    }
}

/// What site `s` of function `a` is reported as: a call in an async function,
/// matching no pattern itself, to a synchronous function with evidence, on a
/// line without a `# noqa` for it.
pub open spec fn site_reported(
    files: Seq<SourceFile>,
    fns: Seq<FunctionView>,
    ev: Seq<Option<EvidenceView>>,
    a: int,
    s: int,
) -> Option<TransitiveFindingView> {
    let site = fns[a].sites[s];
    match sync_target(fns, a, s) {
        Some(t) => if fns[a].is_async && site.blocking is None && ev[t] is Some {
            let src = files[fns[a].file as int].source@;
            let line = line_number(src, site.offset as int);
            if spec_noqa_suppresses(line_bytes(src, line)) {
                None
            } else {
                let c = evidence_chain(ev, t);
                let end = c.last();
                let b = fns[end].sites[ev[end]->0.site];
                let bfile = files[fns[end].file as int];
                Some(
                    TransitiveFindingView {
                        file: fns[a].file as int,
                        line,
                        col: column(src, site.offset as int),
                        message: transitive_message(
                            b.blocking->0,
                            joined_names(fns, c),
                            bfile.path@,
                            line_number(bfile.source@, b.offset as int),
                            column(bfile.source@, b.offset as int),
                        ),
                    },
                )
            }
        } else {
            None
        },
        None => None,
    }
}

/// A one-element sequence, or an empty one.
pub open spec fn opt_seq<A>(o: Option<A>) -> Seq<A> {
    match o {
        Some(x) => seq![x],
        None => seq![],
    }
}

/// What the first `k` sites of function `a` are reported as, in order.
pub open spec fn sites_reported(
    files: Seq<SourceFile>,
    fns: Seq<FunctionView>,
    ev: Seq<Option<EvidenceView>>,
    a: int,
    k: int,
) -> Seq<TransitiveFindingView>
    decreases k,
{
    if k <= 0 {
        seq![]
    } else {
        sites_reported(files, fns, ev, a, k - 1) + opt_seq(site_reported(files, fns, ev, a, k - 1))
    }
}

/// What the sites of the first `k` functions are reported as, in order.
pub open spec fn functions_reported(
    files: Seq<SourceFile>,
    fns: Seq<FunctionView>,
    ev: Seq<Option<EvidenceView>>,
    k: int,
) -> Seq<TransitiveFindingView>
    decreases k,
{
    if k <= 0 {
        seq![]
    } else {
        functions_reported(files, fns, ev, k - 1) + sites_reported(
            files,
            fns,
            ev,
            k - 1,
            fns[k - 1].sites.len() as int,
        )
    }
}

/// The evidence where the search stops.
pub open spec fn final_evidence(fns: Seq<FunctionView>) -> Seq<Option<EvidenceView>> {
    choose|ev: Seq<Option<EvidenceView>>| is_final_evidence(fns, ev)
}

/// The search stops at one place only.
pub proof fn lemma_final_unique(fns: Seq<FunctionView>, ev: Seq<Option<EvidenceView>>)
    requires
        is_final_evidence(fns, ev),
    ensures
        final_evidence(fns) == ev,
{
    let other = final_evidence(fns);
    assert(is_final_evidence(fns, other));
    let k1 = choose|k: nat| ev == evidence_after(fns, k) && #[trigger] step(fns, ev, k + 1) == ev;
    let k2 = choose|k: nat| other == evidence_after(fns, k) && #[trigger] step(fns, other, k + 1) == other;
    if k1 <= k2 {
        lemma_stable(fns, k1, k2);
    } else {
        lemma_stable(fns, k2, k1);
    }
}

/// The transitive findings of the program made of `files`, in the order of
/// its functions and of their calls.
pub open spec fn transitive_findings(files: Seq<SourceFile>, pats: Seq<Pattern>) -> Seq<
    TransitiveFindingView,
> {
    let fns = program_functions(pats, files);
    functions_reported(files, fns, final_evidence(fns), fns.len() as int)
}

/// The indices of a list as integers.
pub open spec fn ints(v: Seq<usize>) -> Seq<int> {
    v.map_values(|i: usize| i as int)
}

/// The function that the evidence of `f` goes through, if any.
fn via_of(ev: &Vec<Option<Evidence>>, f: usize) -> (r: Option<usize>)
    requires
        f < ev@.len(),
        ev@[f as int] is Some,
    ensures
        opt_int(r) == evidence_views(ev@)[f as int]->0.via,
{
    assert(evidence_views(ev@)[f as int] == opt_evidence(ev@[f as int]));
    match ev[f] {
        Some(e) => e.via,
        None => None,
    }
}

/// The functions that the evidence of `t` passes through.
fn follow_chain(fns: &Vec<Function>, ev: &Vec<Option<Evidence>>, t: usize) -> (r: Vec<usize>)
    requires
        consistent(function_views(fns@), evidence_views(ev@)),
        t < fns@.len(),
        evidence_views(ev@)[t as int] is Some,
    ensures
        ints(r@) == evidence_chain(evidence_views(ev@), t as int),
{
    let ghost fv = function_views(fns@);
    let ghost evv = evidence_views(ev@);
    proof {
        lemma_chain(fv, evv, t as int, evv[t as int]->0.depth as nat);
    }
    let mut out: Vec<usize> = Vec::new();
    out.push(t);
    let mut cur = t;
    assert(ints(out@) =~= seq![t as int]);
    loop
        invariant
            fv == function_views(fns@),
            evv == evidence_views(ev@),
            consistent(fv, evv),
            ev@.len() == fns@.len(),
            cur < fns@.len(),
            evv[cur as int] is Some,
            ints(out@) + evidence_chain(evv, cur as int).drop_first() == evidence_chain(evv, t as int),
        ensures
            ints(out@) == evidence_chain(evv, t as int),
        decreases evv[cur as int]->0.depth,
    {
        proof {
            lemma_chain(fv, evv, cur as int, evv[cur as int]->0.depth as nat);
            assert(evidence_holds(fv, evv, cur as int));
        }
        match via_of(ev, cur) {
            None => {
                assert(evidence_chain(evv, cur as int) == seq![cur as int]);
                assert(evidence_chain(evv, cur as int).drop_first() =~= Seq::<int>::empty());
                assert(ints(out@) =~= ints(out@) + evidence_chain(evv, cur as int).drop_first());
                break ;
            },
            Some(u) => {
                let ghost d = evv[cur as int]->0.depth;
                assert(evidence_holds(fv, evv, u as int));
                proof {
                    lemma_chain(fv, evv, u as int, (d - 1) as nat);
                }
                assert(evidence_chain(evv, cur as int) == seq![cur as int] + chain(
                    evv,
                    u as int,
                    (d - 1) as nat,
                ));
                let ghost before = ints(out@);
                out.push(u);
                assert(ints(out@) =~= before.push(u as int));
                assert(evidence_chain(evv, cur as int).drop_first() =~= evidence_chain(evv, u as int));
                assert(evidence_chain(evv, u as int) =~= seq![u as int] + evidence_chain(
                    evv,
                    u as int,
                ).drop_first());
                assert(ints(out@) + evidence_chain(evv, u as int).drop_first() =~= before
                    + evidence_chain(evv, cur as int).drop_first());
                cur = u;
            },
        }
    }
    out
}

/// Appends the names of the functions `chain`, joined by ` -> `.
fn push_joined_names(out: &mut Vec<u8>, fns: &Vec<Function>, chain: &Vec<usize>)
    requires
        forall|i: int| 0 <= i < chain@.len() ==> #[trigger] chain@[i] < fns@.len(),
    ensures
        final(out)@ == old(out)@ + joined_names(function_views(fns@), ints(chain@)),
{
    let ghost fv = function_views(fns@);
    let mut i: usize = 0;
    while i < chain.len()
        invariant
            fv == function_views(fns@),
            forall|j: int| 0 <= j < chain@.len() ==> #[trigger] chain@[j] < fns@.len(),
            i <= chain@.len(),
            out@ == old(out)@ + joined_names(fv, ints(chain@).take(i as int)),
        decreases chain@.len() - i,
    {
        let f = chain[i];
        assert(fv[f as int] == fns@[f as int]@);
        let ghost c = ints(chain@).take(i + 1);
        assert(c.drop_last() =~= ints(chain@).take(i as int));
        assert(c.last() == f as int);
        if i > 0 {
            push_all(out, " -> ".as_bytes());
        } else {
            assert(c =~= seq![f as int]);
        }
        push_all(out, fns[f].name.as_slice());
        i = i + 1;
    }
    assert(ints(chain@).take(chain@.len() as int) =~= ints(chain@));
}

/// The message of a transitive finding.
fn transitive_message_bytes(glob: &[u8], fns: &Vec<Function>, chain: &Vec<usize>, path: &[u8], line: usize, col: u64) -> (r: Vec<u8>)
    requires
        forall|i: int| 0 <= i < chain@.len() ==> #[trigger] chain@[i] < fns@.len(),
    ensures
        r@ == transitive_message(
            glob@,
            joined_names(function_views(fns@), ints(chain@)),
            path@,
            line as int,
            col as int,
        ),
{
    let mut out: Vec<u8> = Vec::new();
    push_all(&mut out, "ASYNC200T blocking sync call ".as_bytes());
    push_all(&mut out, glob);
    push_all(&mut out, " reachable from async function via ".as_bytes());
    push_joined_names(&mut out, fns, chain);
    push_all(&mut out, " (".as_bytes());
    push_all(&mut out, path);
    push_all(&mut out, ":".as_bytes());
    push_decimal(&mut out, line as u64);
    push_all(&mut out, ":".as_bytes());
    push_decimal(&mut out, col);
    push_all(&mut out, ")".as_bytes());
    out
}

/// Each of `indexes` indexes the lines of the file at the same place.
pub open spec fn indexes_files(indexes: Seq<LineIndex>, files: Seq<SourceFile>) -> bool {
    &&& indexes.len() == files.len()
    &&& forall|i: int|
        0 <= i < files.len() ==> (#[trigger] indexes[i]).starts_view() == line_starts(files[i].source@)
            && indexes[i].len_view() == files[i].source@.len()
}

/// Indexes the lines of every file.
fn index_files(files: &Vec<SourceFile>) -> (r: Vec<LineIndex>)
    ensures
        indexes_files(r@, files@),
{
    let mut r: Vec<LineIndex> = Vec::new();
    let mut i: usize = 0;
    while i < files.len()
        invariant
            i <= files@.len(),
            r@.len() == i,
            forall|j: int|
                0 <= j < i ==> (#[trigger] r@[j]).starts_view() == line_starts(files@[j].source@)
                    && r@[j].len_view() == files@[j].source@.len(),
        decreases files@.len() - i,
    {
        r.push(LineIndex::new(files[i].source.as_slice()));
        i = i + 1;
    }
    r
}

/// What site `s` of function `a` is reported as.
fn report_site(
    files: &Vec<SourceFile>,
    indexes: &Vec<LineIndex>,
    fns: &Vec<Function>,
    table: &Vec<Vec<Option<usize>>>,
    ev: &Vec<Option<Evidence>>,
    a: usize,
    s: usize,
) -> (r: Option<TransitiveFinding>)
    requires
        indexes_files(indexes@, files@),
        forall|j: int| 0 <= j < fns@.len() ==> (#[trigger] function_views(fns@)[j]).file < files@.len(),
        is_target_table(function_views(fns@), table@),
        consistent(function_views(fns@), evidence_views(ev@)),
        a < fns@.len(),
        s < function_views(fns@)[a as int].sites.len(),
    ensures
        match r {
            Some(f) => site_reported(files@, function_views(fns@), evidence_views(ev@), a as int, s as int)
                == Some(f@),
            None => site_reported(files@, function_views(fns@), evidence_views(ev@), a as int, s as int)
                is None,
        },
{
    let ghost fv = function_views(fns@);
    let ghost evv = evidence_views(ev@);
    let func = &fns[a];
    assert(fv[a as int] == func@);
    assert(fv[a as int].sites == site_views(func.sites@));
    let site = &func.sites[s];
    assert(fv[a as int].sites[s as int] == site@);
    assert(opt_int(table@[a as int]@[s as int]) == crate::resolve::target(fv, a as int, s as int));
    let t = match table[a][s] {
        Some(t) => t,
        None => {
            return None;
        },
    };
    if t >= fns.len() {
        return None;
    }
    assert(fv[t as int] == fns@[t as int]@);
    if fns[t].is_async {
        return None;
    }
    assert(sync_target(fv, a as int, s as int) == Some(t as int));
    assert(evv[t as int] == opt_evidence(ev@[t as int]));
    if !func.is_async || site.blocking.is_some() || ev[t].is_none() {
        return None;
    }
    let file = func.file;
    assert(fv[a as int].file == file);
    let src = files[file].source.as_slice();
    let idx = &indexes[file];
    let line = idx.line_of(site.offset as usize);
    if noqa_suppresses(idx.line_text(src, line)) {
        return None;
    }
    let col = idx.col_of(site.offset);
    let chain = follow_chain(fns, ev, t);
    proof {
        lemma_chain(fv, evv, t as int, evv[t as int]->0.depth as nat);
    }
    let ghost c = evidence_chain(evv, t as int);
    assert(ints(chain@) == c);
    assert(chain@.len() == c.len());
    assert forall|i: int| 0 <= i < chain@.len() implies #[trigger] chain@[i] < fns@.len() by {
        assert(ints(chain@)[i] == c[i]);
    }
    let end = chain[chain.len() - 1];
    assert(end as int == c.last());
    assert(evidence_holds(fv, evv, end as int));
    assert(evv[end as int] == opt_evidence(ev@[end as int]));
    let e = match ev[end] {
        Some(e) => e,
        None => {
            return None;
        },
    };
    let bfunc = &fns[end];
    assert(fv[end as int] == bfunc@);
    assert(fv[end as int].sites == site_views(bfunc.sites@));
    let b = &bfunc.sites[e.site];
    assert(fv[end as int].sites[e.site as int] == b@);
    let glob = match &b.blocking {
        Some(g) => g,
        None => {
            return None;
        },
    };
    let bf = bfunc.file;
    assert(fv[end as int].file == bf);
    let bidx = &indexes[bf];
    let bline = bidx.line_of(b.offset as usize);
    let bcol = bidx.col_of(b.offset);
    let message = transitive_message_bytes(glob.as_slice(), fns, &chain, files[bf].path.as_slice(), bline, bcol);
    Some(TransitiveFinding { file, line, col, message })
}

/// Checks the program made of `files` in the transitive mode: the functions
/// and their calls, the synchronous functions that reach a blocking call, and
/// the calls in async functions that lead to one, suppressed ones left out.
pub fn check_transitive(files: &Vec<SourceFile>, patterns: &[Pattern]) -> (r: Vec<TransitiveFinding>)
    ensures
        r@.map_values(|f: TransitiveFinding| f@) == transitive_findings(files@, patterns@),
{
    let fns = collect_functions(files, patterns);
    let table = resolve_all(&fns);
    let ev = blocking_evidence(&fns, &table);
    let ghost fv = function_views(fns@);
    let ghost evv = evidence_views(ev@);
    proof {
        lemma_final_unique(fv, evv);
        lemma_program_files(patterns@, files@);
    }
    let indexes = index_files(files);
    let mut out: Vec<TransitiveFinding> = Vec::new();
    let mut a: usize = 0;
    while a < fns.len()
        invariant
            fv == function_views(fns@),
            fv == program_functions(patterns@, files@),
            evv == evidence_views(ev@),
            evv == final_evidence(fv),
            indexes_files(indexes@, files@),
            forall|j: int| 0 <= j < fns@.len() ==> (#[trigger] fv[j]).file < files@.len(),
            is_target_table(fv, table@),
            consistent(fv, evv),
            a <= fns@.len(),
            out@.map_values(|f: TransitiveFinding| f@) == functions_reported(files@, fv, evv, a as int),
        decreases fns@.len() - a,
    {
        let n_sites = fns[a].sites.len();
        assert(fv[a as int].sites.len() == n_sites);
        let mut s: usize = 0;
        while s < n_sites
            invariant
                fv == function_views(fns@),
                evv == evidence_views(ev@),
                indexes_files(indexes@, files@),
                forall|j: int| 0 <= j < fns@.len() ==> (#[trigger] fv[j]).file < files@.len(),
                is_target_table(fv, table@),
                consistent(fv, evv),
                a < fns@.len(),
                n_sites == fv[a as int].sites.len(),
                s <= n_sites,
                out@.map_values(|f: TransitiveFinding| f@) == functions_reported(files@, fv, evv, a as int)
                    + sites_reported(files@, fv, evv, a as int, s as int),
            decreases n_sites - s,
        {
            let ghost before = out@.map_values(|f: TransitiveFinding| f@);
            match report_site(files, &indexes, &fns, &table, &ev, a, s) {
                Some(f) => {
                    out.push(f);
                    assert(out@.map_values(|f: TransitiveFinding| f@) =~= before.push(f@));
                },
                None => {},
            }
            assert(out@.map_values(|f: TransitiveFinding| f@) =~= functions_reported(files@, fv, evv, a as int)
                + sites_reported(files@, fv, evv, a as int, s + 1));
            s = s + 1;
        }
        assert(out@.map_values(|f: TransitiveFinding| f@) =~= functions_reported(files@, fv, evv, a + 1));
        a = a + 1;
    }
    out
}

/// Where the search stops, the chain printed for a synchronous function with
/// evidence is a path of calls: it starts at that function, each function in
/// it calls the next through a resolved call to a synchronous function, and
/// the last one makes a blocking call itself.
pub proof fn law_chain_is_call_path(fns: Seq<FunctionView>, ev: Seq<Option<EvidenceView>>, t: int)
    requires
        is_final_evidence(fns, ev),
        0 <= t < fns.len(),
        ev[t] is Some,
    ensures
        evidence_chain(ev, t).len() >= 1,
        evidence_chain(ev, t)[0] == t,
        forall|i: int|
            0 <= i < evidence_chain(ev, t).len() - 1 ==> sync_target(
                fns,
                #[trigger] evidence_chain(ev, t)[i],
                ev[evidence_chain(ev, t)[i]]->0.site,
            ) == Some(evidence_chain(ev, t)[i + 1]),
        ({
            let end = evidence_chain(ev, t).last();
            &&& 0 <= end < fns.len()
            &&& !fns[end].is_async
            &&& 0 <= ev[end]->0.site < fns[end].sites.len()
            &&& fns[end].sites[ev[end]->0.site].blocking is Some
        }),
{
    let k = choose|k: nat| ev == evidence_after(fns, k) && #[trigger] step(fns, ev, k + 1) == ev;
    crate::evidence::lemma_rounds(fns, k);
    lemma_chain_path(fns, ev, t, ev[t]->0.depth as nat);
}

proof fn lemma_chain_path(fns: Seq<FunctionView>, ev: Seq<Option<EvidenceView>>, t: int, fuel: nat)
    requires
        consistent(fns, ev),
        0 <= t < fns.len(),
        ev[t] is Some,
        fuel >= ev[t]->0.depth,
    ensures
        forall|i: int|
            0 <= i < chain(ev, t, fuel).len() - 1 ==> sync_target(
                fns,
                #[trigger] chain(ev, t, fuel)[i],
                ev[chain(ev, t, fuel)[i]]->0.site,
            ) == Some(chain(ev, t, fuel)[i + 1]),
        ({
            let end = chain(ev, t, fuel).last();
            &&& 0 <= end < fns.len()
            &&& !fns[end].is_async
            &&& 0 <= ev[end]->0.site < fns[end].sites.len()
            &&& fns[end].sites[ev[end]->0.site].blocking is Some
        }),
    decreases ev[t]->0.depth,
{
    lemma_chain(fns, ev, t, fuel);
    assert(evidence_holds(fns, ev, t));
    let c = chain(ev, t, fuel);
    let e = ev[t]->0;
    match e.via {
        None => {
            assert(c == seq![t]);
        },
        Some(u) => {
            assert(evidence_holds(fns, ev, u));
            lemma_chain_path(fns, ev, u, (fuel - 1) as nat);
            lemma_chain(fns, ev, u, (fuel - 1) as nat);
            let rest = chain(ev, u, (fuel - 1) as nat);
            assert(c == seq![t] + rest);
            assert forall|i: int| 0 <= i < c.len() - 1 implies sync_target(
                fns,
                #[trigger] c[i],
                ev[c[i]]->0.site,
            ) == Some(c[i + 1]) by {
                if i == 0 {
                    assert(c[1] == rest[0]);
                } else {
                    assert(c[i] == rest[i - 1]);
                    assert(c[i + 1] == rest[i]);
                }
            }
            assert(c.last() == rest.last());
        },
    }
    let end = c.last();
    assert(evidence_holds(fns, ev, end));
}

} // verus!
