//! The functions of a program and the calls made directly in their bodies,
//! for the transitive mode of ASYNC200.
//!
//! The calls of a function are those in its body, outside nested `def`s and
//! `lambda`s; a directly awaited call is not one of them (its arguments are
//! walked). Each call records the last name of its callee, by which it is
//! resolved, and the first blocking-call pattern that matches the callee.
use vstd::prelude::*;
use crate::ast::{children, unparse, unparsed, Expr, ExprNode, Stmt, StmtNode, ElifElse};
use crate::checker::{first_match, first_matching, Pattern};
use crate::cli::copy_bytes;
use crate::seqs::{
    is_infix, lemma_infix_concat, lemma_infix_contains, lemma_infix_in3, lemma_infix_left, lemma_infix_right,
    lemma_infix_self, lemma_infix_trans,
};

verus! {

/// A call made in a function body.
pub struct Site {
    /// The offset of the call.
    pub offset: u32,
    /// The last name of the callee: `f` of `f(...)`, `m` of `x.m(...)`; none
    /// for any other callee.
    pub callee: Option<Vec<u8>>,
    /// The glob of the first blocking-call pattern that matches the callee's
    /// text.
    pub blocking: Option<Vec<u8>>,
}

/// A `Site` as plain values.
pub struct SiteView {
    pub offset: u32,
    pub callee: Option<Seq<u8>>,
    pub blocking: Option<Seq<u8>>,
}

impl View for Site {
    type V = SiteView;

    open spec fn view(&self) -> SiteView {
        SiteView {
            offset: self.offset,
            callee: match self.callee {
                Some(c) => Some(c@),
                None => None,
            },
            blocking: match self.blocking {
                Some(g) => Some(g@),
                None => None,
            },
        }
    }
}

/// A function definition of the program.
pub struct Function {
    /// The index of the file that defines it.
    pub file: usize,
    pub name: Vec<u8>,
    /// The class whose body holds the definition, if any.
    pub class: Option<Vec<u8>>,
    pub is_async: bool,
    /// The calls made in its body, in source order.
    pub sites: Vec<Site>,
}

/// A `Function` as plain values.
pub struct FunctionView {
    pub file: usize,
    pub name: Seq<u8>,
    pub class: Option<Seq<u8>>,
    pub is_async: bool,
    pub sites: Seq<SiteView>,
}

/// The views of a list of sites.
pub open spec fn site_views(v: Seq<Site>) -> Seq<SiteView> {
    v.map_values(|s: Site| s@)
}

impl View for Function {
    type V = FunctionView;

    open spec fn view(&self) -> FunctionView {
        FunctionView {
            file: self.file,
            name: self.name@,
            class: match self.class {
                Some(c) => Some(c@),
                None => None,
            },
            is_async: self.is_async,
            sites: site_views(self.sites@),
        }
    }
}

/// The views of a list of functions.
pub open spec fn function_views(v: Seq<Function>) -> Seq<FunctionView> {
    v.map_values(|f: Function| f@)
}

/// The name a callee is resolved by: a bare name, or the attribute of an
/// attribute access.
pub open spec fn callee_name(func: Expr) -> Option<Seq<u8>> {
    match func.node {
        ExprNode::Name(id) => Some(id@),
        ExprNode::Attribute(_, attr) => Some(attr@),
        _ => None,
    }
}

/// The site of a call at `offset` to `func`.
pub open spec fn site_of(pats: Seq<Pattern>, offset: u32, func: Expr) -> SiteView {
    SiteView {
        offset,
        callee: callee_name(func),
        blocking: match first_match(pats, unparsed(func)) {
            Some(i) => Some(pats[i].glob@),
            None => None,
        },
    }
}

/// The sites in `e`, itself included: a `lambda` holds none, and a directly
/// awaited call is not a site, though its callee and arguments are walked.
pub open spec fn expr_sites(pats: Seq<Pattern>, e: Expr) -> Seq<SiteView>
    decreases e, 1int,
{
    match e.node {
        ExprNode::Lambda(_) => seq![],
        ExprNode::Await(value) => match value.node {
            ExprNode::Call(_, _) => walk_sites(pats, *value),
            _ => walk_sites(pats, e),
        },
        ExprNode::Call(func, _) => seq![site_of(pats, e.start, *func)] + walk_sites(pats, e),
        _ => walk_sites(pats, e),
    }
}

/// The sites in the direct sub-expressions of `e`.
pub open spec fn walk_sites(pats: Seq<Pattern>, e: Expr) -> Seq<SiteView>
    decreases e, 0int,
{
    match e.node {
        ExprNode::Name(_) => seq![],
        ExprNode::Attribute(value, _) => expr_sites(pats, *value),
        ExprNode::Call(func, args) => expr_sites(pats, *func) + exprs_sites(pats, args@),
        ExprNode::Subscript(value, slice) => expr_sites(pats, *value) + expr_sites(pats, *slice),
        ExprNode::Await(value) => expr_sites(pats, *value),
        ExprNode::Lambda(parts) => exprs_sites(pats, parts@),
        ExprNode::Other(parts) => exprs_sites(pats, parts@),
    }
}

/// The sites in each of `es`, in order.
pub open spec fn exprs_sites(pats: Seq<Pattern>, es: Seq<Expr>) -> Seq<SiteView>
    decreases es, 0int,
{
    if es.len() == 0 {
        seq![]
    } else {
        exprs_sites(pats, es.drop_last()) + expr_sites(pats, es.last())
    }
}

/// The sites of the statement `s` that belong to the function running it: a
/// nested `def` holds none of them.
pub open spec fn stmt_sites(pats: Seq<Pattern>, s: Stmt) -> Seq<SiteView>
    decreases s, 1int,
{
    match s.node {
        StmtNode::FunctionDef { .. } => seq![],
        StmtNode::ClassDef { exprs, body, .. } => exprs_sites(pats, exprs@) + stmts_sites(
            pats,
            body@,
        ),
        StmtNode::AnnAssign { annotation, exprs } => expr_sites(pats, annotation) + exprs_sites(
            pats,
            exprs@,
        ),
        StmtNode::If { test, body, clauses } => expr_sites(pats, test) + stmts_sites(pats, body@)
            + clauses_sites(pats, clauses@),
        StmtNode::Other { exprs, body } => exprs_sites(pats, exprs@) + stmts_sites(pats, body@),
    }
}

/// `stmt_sites` over each of `ss`, in order.
pub open spec fn stmts_sites(pats: Seq<Pattern>, ss: Seq<Stmt>) -> Seq<SiteView>
    decreases ss, 0int,
{
    if ss.len() == 0 {
        seq![]
    } else {
        stmts_sites(pats, ss.drop_last()) + stmt_sites(pats, ss.last())
    }
}

/// The sites of an `elif`/`else` clause.
pub open spec fn clause_sites(pats: Seq<Pattern>, c: ElifElse) -> Seq<SiteView>
    decreases c, 0int,
{
    let test = match c.test {
        Some(t) => expr_sites(pats, t),
        None => seq![],
    };
    test + stmts_sites(pats, c.body@)
}

/// `clause_sites` over each of `cs`, in order.
pub open spec fn clauses_sites(pats: Seq<Pattern>, cs: Seq<ElifElse>) -> Seq<SiteView>
    decreases cs, 0int,
{
    if cs.len() == 0 {
        seq![]
    } else {
        clauses_sites(pats, cs.drop_last()) + clause_sites(pats, cs.last())
    }
}

/// Gathers the sites of a function body.
pub struct SiteWalk<'a> {
    pub patterns: &'a [Pattern],
    pub sites: Vec<Site>,
}

impl<'a> SiteWalk<'a> {
    /// Records the site of the call `call`.
    pub fn record(&mut self, call: &Expr)
        requires
            call.node is Call,
        ensures
            final(self).patterns == old(self).patterns,
            site_views(final(self).sites@) == site_views(old(self).sites@).push(
                site_of(old(self).patterns@, call.start, *call.node->Call_0),
            ),
    {
        if let ExprNode::Call(func, _) = &call.node {
            let callee = match &func.node {
                ExprNode::Name(id) => Some(copy_bytes(id.as_slice())),
                ExprNode::Attribute(_, attr) => Some(copy_bytes(attr.as_slice())),
                _ => None,
            };
            let mut text: Vec<u8> = Vec::new();
            unparse(func, &mut text);
            assert(text@ =~= unparsed(**func));
            let blocking = match first_matching(self.patterns, text.as_slice()) {
                Some(i) => Some(copy_bytes(self.patterns[i].glob.as_slice())),
                None => None,
            };
            let site = Site { offset: call.start, callee, blocking };
            let ghost before = self.sites@;
            self.sites.push(site);
            assert(site_views(self.sites@) =~= site_views(before).push(site@));
        }
    }

    /// Records the sites in the direct sub-expressions of `expr`.
    pub fn walk_expr(&mut self, expr: &Expr)
        ensures
            final(self).patterns == old(self).patterns,
            site_views(final(self).sites@) == site_views(old(self).sites@) + walk_sites(
                old(self).patterns@,
                *expr,
            ),
        decreases expr, 0int,
    {
        match &expr.node {
            ExprNode::Name(_) => {
                assert(site_views(self.sites@) =~= site_views(self.sites@) + Seq::<SiteView>::empty());
            },
            ExprNode::Attribute(value, _) => self.visit_expr(value),
            ExprNode::Call(func, args) => {
                self.visit_expr(func);
                self.visit_exprs(args);
            },
            ExprNode::Subscript(value, slice) => {
                self.visit_expr(value);
                self.visit_expr(slice);
            },
            ExprNode::Await(value) => self.visit_expr(value),
            ExprNode::Lambda(parts) => self.visit_exprs(parts),
            ExprNode::Other(parts) => self.visit_exprs(parts),
        }
    }

    /// Records the sites in each of `exprs`, in order.
    pub fn visit_exprs(&mut self, exprs: &Vec<Expr>)
        ensures
            final(self).patterns == old(self).patterns,
            site_views(final(self).sites@) == site_views(old(self).sites@) + exprs_sites(
                old(self).patterns@,
                exprs@,
            ),
        decreases exprs, 0int,
    {
        let mut i: usize = 0;
        while i < exprs.len()
            invariant
                self.patterns == old(self).patterns,
                i <= exprs.len(),
                site_views(self.sites@) == site_views(old(self).sites@) + exprs_sites(
                    old(self).patterns@,
                    exprs@.take(i as int),
                ),
            decreases exprs.len() - i,
        {
            assert(exprs@.take(i + 1).drop_last() =~= exprs@.take(i as int));
            self.visit_expr(&exprs[i]);
            i = i + 1;
        }
        assert(exprs@.take(exprs.len() as int) =~= exprs@);
    }

    /// Records the sites in `expr`, itself included.
    pub fn visit_expr(&mut self, expr: &Expr)
        ensures
            final(self).patterns == old(self).patterns,
            site_views(final(self).sites@) == site_views(old(self).sites@) + expr_sites(
                old(self).patterns@,
                *expr,
            ),
        decreases expr, 1int,
    {
        match &expr.node {
            ExprNode::Lambda(_) => {
                assert(site_views(self.sites@) =~= site_views(self.sites@) + Seq::<SiteView>::empty());
            },
            ExprNode::Await(value) => {
                if let ExprNode::Call(_, _) = &value.node {
                    self.walk_expr(value);
                } else {
                    self.walk_expr(expr);
                }
            },
            ExprNode::Call(_, _) => {
                self.record(expr);
                self.walk_expr(expr);
            },
            _ => self.walk_expr(expr),
        }
    }

    /// Records the sites of `stmt` that belong to the function running it.
    pub fn visit_stmt(&mut self, stmt: &Stmt)
        ensures
            final(self).patterns == old(self).patterns,
            site_views(final(self).sites@) == site_views(old(self).sites@) + stmt_sites(
                old(self).patterns@,
                *stmt,
            ),
        decreases stmt, 1int,
    {
        match &stmt.node {
            StmtNode::FunctionDef { .. } => {
                assert(site_views(self.sites@) =~= site_views(self.sites@) + Seq::<SiteView>::empty());
            },
            StmtNode::ClassDef { exprs, body, .. } => {
                self.visit_exprs(exprs);
                self.visit_body(body);
            },
            StmtNode::AnnAssign { annotation, exprs } => {
                self.visit_expr(annotation);
                self.visit_exprs(exprs);
            },
            StmtNode::If { test, body, clauses } => {
                self.visit_expr(test);
                self.visit_body(body);
                self.visit_clauses(clauses);
            },
            StmtNode::Other { exprs, body } => {
                self.visit_exprs(exprs);
                self.visit_body(body);
            },
        }
    }

    /// Records the sites of each of `body`, in order.
    pub fn visit_body(&mut self, body: &Vec<Stmt>)
        ensures
            final(self).patterns == old(self).patterns,
            site_views(final(self).sites@) == site_views(old(self).sites@) + stmts_sites(
                old(self).patterns@,
                body@,
            ),
        decreases body, 0int,
    {
        let mut i: usize = 0;
        while i < body.len()
            invariant
                self.patterns == old(self).patterns,
                i <= body.len(),
                site_views(self.sites@) == site_views(old(self).sites@) + stmts_sites(
                    old(self).patterns@,
                    body@.take(i as int),
                ),
            decreases body.len() - i,
        {
            assert(body@.take(i + 1).drop_last() =~= body@.take(i as int));
            self.visit_stmt(&body[i]);
            i = i + 1;
        }
        assert(body@.take(body.len() as int) =~= body@);
    }

    /// Records the sites of each of the `elif`/`else` clauses `clauses`.
    pub fn visit_clauses(&mut self, clauses: &Vec<ElifElse>)
        ensures
            final(self).patterns == old(self).patterns,
            site_views(final(self).sites@) == site_views(old(self).sites@) + clauses_sites(
                old(self).patterns@,
                clauses@,
            ),
        decreases clauses, 0int,
    {
        let mut i: usize = 0;
        while i < clauses.len()
            invariant
                self.patterns == old(self).patterns,
                i <= clauses.len(),
                site_views(self.sites@) == site_views(old(self).sites@) + clauses_sites(
                    old(self).patterns@,
                    clauses@.take(i as int),
                ),
            decreases clauses.len() - i,
        {
            assert(clauses@.take(i + 1).drop_last() =~= clauses@.take(i as int));
            let clause = &clauses[i];
            proof {
                assert(decreases_to!(clauses@ => clauses@[i as int]));
                assert(decreases_to!(clauses@[i as int] => clause.body));
            }
            assert(clauses@.take(i + 1).last() == *clause);
            let ghost before = site_views(self.sites@);
            if let Some(t) = &clause.test {
                self.visit_expr(t);
            } else {
                assert(site_views(self.sites@) =~= site_views(self.sites@) + Seq::<SiteView>::empty());
            }
            self.visit_body(&clause.body);
            assert(site_views(self.sites@) =~= before + clause_sites(old(self).patterns@, *clause));
            i = i + 1;
        }
        assert(clauses@.take(clauses.len() as int) =~= clauses@);
    }
}

/// A copy of an optional name.
pub fn copy_name(name: &Option<Vec<u8>>) -> (r: Option<Vec<u8>>)
    ensures
        match (r, *name) {
            (Some(a), Some(b)) => a@ == b@,
            (None, None) => true,
            _ => false,
        },
{
    match name {
        Some(n) => Some(copy_bytes(n.as_slice())),
        None => None,
    }
}

/// An optional name as plain values.
pub open spec fn name_view(name: Option<Vec<u8>>) -> Option<Seq<u8>> {
    match name {
        Some(n) => Some(n@),
        None => None,
    }
}

/// The functions defined in the statement `s` of file `file`, in source order,
/// each before those nested in it. `class` is the class whose body holds `s`.
pub open spec fn stmt_functions(pats: Seq<Pattern>, file: usize, s: Stmt, class: Option<Seq<u8>>) -> Seq<
    FunctionView,
>
    decreases s, 1int,
{
    match s.node {
        StmtNode::FunctionDef { name, is_async, body, .. } => seq![
            FunctionView { file, name: name@, class, is_async, sites: stmts_sites(pats, body@) },
        ] + stmts_functions(pats, file, body@, None),
        StmtNode::ClassDef { name, body, .. } => stmts_functions(pats, file, body@, Some(name@)),
        StmtNode::AnnAssign { .. } => seq![],
        StmtNode::If { body, clauses, .. } => stmts_functions(pats, file, body@, class)
            + clauses_functions(pats, file, clauses@, class),
        StmtNode::Other { body, .. } => stmts_functions(pats, file, body@, class),
    }
}

/// `stmt_functions` over each of `ss`, in order.
pub open spec fn stmts_functions(pats: Seq<Pattern>, file: usize, ss: Seq<Stmt>, class: Option<Seq<u8>>) -> Seq<
    FunctionView,
>
    decreases ss, 0int,
{
    if ss.len() == 0 {
        seq![]
    } else {
        stmts_functions(pats, file, ss.drop_last(), class) + stmt_functions(
            pats,
            file,
            ss.last(),
            class,
        )
    }
}

/// The functions defined in each of the `elif`/`else` clauses `cs`, in order.
pub open spec fn clauses_functions(
    pats: Seq<Pattern>,
    file: usize,
    cs: Seq<ElifElse>,
    class: Option<Seq<u8>>,
) -> Seq<FunctionView>
    decreases cs, 0int,
{
    if cs.len() == 0 {
        seq![]
    } else {
        clauses_functions(pats, file, cs.drop_last(), class) + stmts_functions(
            pats,
            file,
            cs.last().body@,
            class,
        )
    }
}

/// Gathers the functions of a module.
pub struct FunctionWalk<'a> {
    pub patterns: &'a [Pattern],
    pub file: usize,
    pub functions: Vec<Function>,
}

impl<'a> FunctionWalk<'a> {
    /// Records the functions defined in `stmt`, held by the body of `class`.
    pub fn visit_stmt(&mut self, stmt: &Stmt, class: &Option<Vec<u8>>)
        ensures
            final(self).patterns == old(self).patterns,
            final(self).file == old(self).file,
            function_views(final(self).functions@) == function_views(old(self).functions@)
                + stmt_functions(old(self).patterns@, old(self).file, *stmt, name_view(*class)),
        decreases stmt, 1int,
    {
        let ghost pats = self.patterns@;
        match &stmt.node {
            StmtNode::FunctionDef { name, is_async, body, .. } => {
                let mut walk = SiteWalk { patterns: self.patterns, sites: Vec::new() };
                walk.visit_body(body);
                assert(site_views(walk.sites@) =~= stmts_sites(pats, body@));
                let f = Function {
                    file: self.file,
                    name: copy_bytes(name.as_slice()),
                    class: copy_name(class),
                    is_async: *is_async,
                    sites: walk.sites,
                };
                let ghost before = function_views(self.functions@);
                self.functions.push(f);
                assert(function_views(self.functions@) =~= before.push(f@));
                self.visit_body(body, &None);
            },
            StmtNode::ClassDef { name, body, .. } => {
                let inner = Some(copy_bytes(name.as_slice()));
                self.visit_body(body, &inner);
            },
            StmtNode::AnnAssign { .. } => {
                assert(function_views(self.functions@) =~= function_views(self.functions@)
                    + Seq::<FunctionView>::empty());
            },
            StmtNode::If { body, clauses, .. } => {
                self.visit_body(body, class);
                let mut i: usize = 0;
                let ghost mid = function_views(self.functions@);
                while i < clauses.len()
                    invariant
                        self.patterns == old(self).patterns,
                        pats == old(self).patterns@,
                        self.file == old(self).file,
                        stmt.node is If,
                        stmt.node->If_clauses == *clauses,
                        i <= clauses.len(),
                        function_views(self.functions@) == mid + clauses_functions(
                            pats,
                            self.file,
                            clauses@.take(i as int),
                            name_view(*class),
                        ),
                    decreases clauses.len() - i,
                {
                    assert(clauses@.take(i + 1).drop_last() =~= clauses@.take(i as int));
                    assert(clauses@.take(i + 1).last() == clauses@[i as int]);
                    let clause = &clauses[i];
                    proof {
                        assert(decreases_to!(*stmt => stmt.node));
                        assert(decreases_to!(stmt.node => stmt.node->If_clauses));
                        assert(decreases_to!(stmt.node->If_clauses => clauses@));
                        assert(decreases_to!(clauses@ => clauses@[i as int]));
                        assert(decreases_to!(clauses@[i as int] => clause.body));
                    }
                    self.visit_body(&clause.body, class);
                    assert(clauses_functions(pats, self.file, clauses@.take(i + 1), name_view(*class))
                        == clauses_functions(pats, self.file, clauses@.take(i as int), name_view(*class))
                        + stmts_functions(pats, self.file, clause.body@, name_view(*class)));
                    assert(function_views(self.functions@) =~= mid + clauses_functions(
                        pats,
                        self.file,
                        clauses@.take(i + 1),
                        name_view(*class),
                    ));
                    i = i + 1;
                }
                assert(clauses@.take(clauses.len() as int) =~= clauses@);
            },
            StmtNode::Other { body, .. } => self.visit_body(body, class),
        }
    }

    /// Records the functions defined in each of `body`, in order.
    pub fn visit_body(&mut self, body: &Vec<Stmt>, class: &Option<Vec<u8>>)
        ensures
            final(self).patterns == old(self).patterns,
            final(self).file == old(self).file,
            function_views(final(self).functions@) == function_views(old(self).functions@)
                + stmts_functions(old(self).patterns@, old(self).file, body@, name_view(*class)),
        decreases body, 0int,
    {
        let mut i: usize = 0;
        while i < body.len()
            invariant
                self.patterns == old(self).patterns,
                self.file == old(self).file,
                i <= body.len(),
                function_views(self.functions@) == function_views(old(self).functions@)
                    + stmts_functions(
                    old(self).patterns@,
                    old(self).file,
                    body@.take(i as int),
                    name_view(*class),
                ),
            decreases body.len() - i,
        {
            assert(body@.take(i + 1).drop_last() =~= body@.take(i as int));
            self.visit_stmt(&body[i], class);
            i = i + 1;
        }
        assert(body@.take(body.len() as int) =~= body@);
    }
}

/// A source file of the program: its path as printed, its text and its
/// syntax tree.
pub struct SourceFile {
    pub path: Vec<u8>,
    pub source: Vec<u8>,
    pub module: Vec<Stmt>,
}

/// The functions of the files `files`, file by file, each file's in source
/// order.
pub open spec fn program_functions(pats: Seq<Pattern>, files: Seq<SourceFile>) -> Seq<FunctionView>
    decreases files.len(),
{
    if files.len() == 0 {
        seq![]
    } else {
        program_functions(pats, files.drop_last()) + stmts_functions(
            pats,
            (files.len() - 1) as usize,
            files.last().module@,
            None,
        )
    }
}

/// Gathers the functions of the files `files`.
pub fn collect_functions(files: &Vec<SourceFile>, patterns: &[Pattern]) -> (r: Vec<Function>)
    ensures
        function_views(r@) == program_functions(patterns@, files@),
{
    let mut walk = FunctionWalk { patterns, file: 0, functions: Vec::new() };
    assert(function_views(walk.functions@) =~= program_functions(patterns@, files@.take(0)));
    let mut i: usize = 0;
    while i < files.len()
        invariant
            i <= files.len(),
            walk.patterns == patterns,
            function_views(walk.functions@) == program_functions(patterns@, files@.take(i as int)),
        decreases files.len() - i,
    {
        assert(files@.take(i + 1).drop_last() =~= files@.take(i as int));
        walk.file = i;
        walk.visit_body(&files[i].module, &None);
        i = i + 1;
    }
    assert(files@.take(files.len() as int) =~= files@);
    walk.functions
}

/// Every function gathered from a file carries that file's index.
pub open spec fn all_in_file(fs: Seq<FunctionView>, file: usize) -> bool {
    forall|j: int| 0 <= j < fs.len() ==> (#[trigger] fs[j]).file == file
}

proof fn lemma_concat_in_file(a: Seq<FunctionView>, b: Seq<FunctionView>, file: usize)
    requires
        all_in_file(a, file),
        all_in_file(b, file),
    ensures
        all_in_file(a + b, file),
{
    assert forall|j: int| 0 <= j < (a + b).len() implies (#[trigger] (a + b)[j]).file == file by {
        if j < a.len() {
            assert((a + b)[j] == a[j]);
        } else {
            assert((a + b)[j] == b[j - a.len()]);
        }
    }
}

proof fn lemma_stmt_in_file(pats: Seq<Pattern>, file: usize, s: Stmt, class: Option<Seq<u8>>)
    ensures
        all_in_file(stmt_functions(pats, file, s, class), file),
    decreases s, 1int,
{
    match s.node {
        StmtNode::FunctionDef { name, is_async, body, .. } => {
            lemma_stmts_in_file(pats, file, body@, None);
            let own = seq![
                FunctionView { file, name: name@, class, is_async, sites: stmts_sites(pats, body@) },
            ];
            assert(all_in_file(own, file));
            lemma_concat_in_file(own, stmts_functions(pats, file, body@, None), file);
        },
        StmtNode::ClassDef { name, body, .. } => lemma_stmts_in_file(pats, file, body@, Some(name@)),
        StmtNode::AnnAssign { .. } => {},
        StmtNode::If { body, clauses, .. } => {
            lemma_stmts_in_file(pats, file, body@, class);
            lemma_clauses_in_file(pats, file, clauses@, class);
            lemma_concat_in_file(
                stmts_functions(pats, file, body@, class),
                clauses_functions(pats, file, clauses@, class),
                file,
            );
        },
        StmtNode::Other { body, .. } => lemma_stmts_in_file(pats, file, body@, class),
    }
}

proof fn lemma_stmts_in_file(pats: Seq<Pattern>, file: usize, ss: Seq<Stmt>, class: Option<Seq<u8>>)
    ensures
        all_in_file(stmts_functions(pats, file, ss, class), file),
    decreases ss, 0int,
{
    if ss.len() > 0 {
        lemma_stmts_in_file(pats, file, ss.drop_last(), class);
        lemma_stmt_in_file(pats, file, ss.last(), class);
        lemma_concat_in_file(
            stmts_functions(pats, file, ss.drop_last(), class),
            stmt_functions(pats, file, ss.last(), class),
            file,
        );
    }
}

proof fn lemma_clauses_in_file(pats: Seq<Pattern>, file: usize, cs: Seq<ElifElse>, class: Option<Seq<u8>>)
    ensures
        all_in_file(clauses_functions(pats, file, cs, class), file),
    decreases cs, 0int,
{
    if cs.len() > 0 {
        lemma_clauses_in_file(pats, file, cs.drop_last(), class);
        assert(decreases_to!(cs => cs.last()));
        assert(decreases_to!(cs.last() => cs.last().body));
        lemma_stmts_in_file(pats, file, cs.last().body@, class);
        lemma_concat_in_file(
            clauses_functions(pats, file, cs.drop_last(), class),
            stmts_functions(pats, file, cs.last().body@, class),
            file,
        );
    }
}

/// Every function of a program is defined in one of its files.
pub proof fn lemma_program_files(pats: Seq<Pattern>, files: Seq<SourceFile>)
    ensures
        forall|j: int|
            0 <= j < program_functions(pats, files).len() ==> (#[trigger] program_functions(
                pats,
                files,
            )[j]).file < files.len(),
    decreases files.len(),
{
    if files.len() > 0 {
        let a = program_functions(pats, files.drop_last());
        let file = (files.len() - 1) as usize;
        let b = stmts_functions(pats, file, files.last().module@, None);
        lemma_program_files(pats, files.drop_last());
        lemma_stmts_in_file(pats, file, files.last().module@, None);
        assert forall|j: int| 0 <= j < (a + b).len() implies (#[trigger] (a + b)[j]).file < files.len() by {
            if j < a.len() {
                assert((a + b)[j] == a[j]);
            } else {
                assert((a + b)[j] == b[j - a.len()]);
            }
        }
    }
}

proof fn lemma_stmt_sites_in_list(pats: Seq<Pattern>, ss: Seq<Stmt>, j: int)
    requires
        0 <= j < ss.len(),
    ensures
        is_infix(stmt_sites(pats, ss[j]), stmts_sites(pats, ss)),
    decreases ss.len(),
{
    let prev = stmts_sites(pats, ss.drop_last());
    let last = stmt_sites(pats, ss.last());
    let all = stmts_sites(pats, ss);
    lemma_infix_concat(prev, last, seq![]);
    assert(prev + last + seq![] =~= all);
    if j < ss.len() - 1 {
        lemma_stmt_sites_in_list(pats, ss.drop_last(), j);
        assert(ss.drop_last()[j] == ss[j]);
        lemma_infix_concat(seq![], prev, last);
        assert(seq![] + prev + last =~= all);
        lemma_infix_trans(stmt_sites(pats, ss[j]), prev, all);
    }
}

proof fn lemma_clause_sites_in_list(pats: Seq<Pattern>, cs: Seq<ElifElse>, k: int)
    requires
        0 <= k < cs.len(),
    ensures
        is_infix(clause_sites(pats, cs[k]), clauses_sites(pats, cs)),
    decreases cs.len(),
{
    let prev = clauses_sites(pats, cs.drop_last());
    let last = clause_sites(pats, cs.last());
    let all = clauses_sites(pats, cs);
    lemma_infix_concat(prev, last, seq![]);
    assert(prev + last + seq![] =~= all);
    if k < cs.len() - 1 {
        lemma_clause_sites_in_list(pats, cs.drop_last(), k);
        assert(cs.drop_last()[k] == cs[k]);
        lemma_infix_concat(seq![], prev, last);
        assert(seq![] + prev + last =~= all);
        lemma_infix_trans(clause_sites(pats, cs[k]), prev, all);
    }
}

/// The calls of an `if` statement, as sites of the function running it, hold,
/// each unbroken, those of every statement of its body and of every statement
/// of each `elif`/`else` clause body.
pub proof fn law_if_sites_cover_every_branch(pats: Seq<Pattern>, s: Stmt)
    requires
        s.node is If,
    ensures
        forall|j: int|
            0 <= j < s.node->If_body@.len() ==> is_infix(
                stmt_sites(pats, #[trigger] s.node->If_body@[j]),
                stmt_sites(pats, s),
            ),
        forall|k: int, j: int|
            0 <= k < s.node->If_clauses@.len() && 0 <= j < s.node->If_clauses@[k].body@.len()
                ==> is_infix(
                stmt_sites(pats, #[trigger] s.node->If_clauses@[k].body@[j]),
                stmt_sites(pats, s),
            ),
{
    if let StmtNode::If { test, body, clauses } = s.node {
        let t = expr_sites(pats, test);
        let b = stmts_sites(pats, body@);
        let c = clauses_sites(pats, clauses@);
        let all = stmt_sites(pats, s);
        assert(all == t + b + c);
        lemma_infix_concat(t, b, c);
        lemma_infix_concat(t + b, c, seq![]);
        assert(t + b + c + seq![] =~= all);
        assert forall|j: int| 0 <= j < body@.len() implies is_infix(
            stmt_sites(pats, #[trigger] body@[j]),
            all,
        ) by {
            lemma_stmt_sites_in_list(pats, body@, j);
            lemma_infix_trans(stmt_sites(pats, body@[j]), b, all);
        }
        assert forall|k: int, j: int|
            0 <= k < clauses@.len() && 0 <= j < clauses@[k].body@.len() implies is_infix(
            stmt_sites(pats, #[trigger] clauses@[k].body@[j]),
            all,
        ) by {
            let cl = clauses@[k];
            let td = match cl.test {
                Some(x) => expr_sites(pats, x),
                None => seq![],
            };
            let bd = stmts_sites(pats, cl.body@);
            assert(clause_sites(pats, cl) == td + bd);
            lemma_infix_concat(td, bd, seq![]);
            assert(td + bd + seq![] =~= td + bd);
            lemma_stmt_sites_in_list(pats, cl.body@, j);
            lemma_infix_trans(stmt_sites(pats, cl.body@[j]), bd, td + bd);
            lemma_clause_sites_in_list(pats, clauses@, k);
            lemma_infix_trans(stmt_sites(pats, cl.body@[j]), td + bd, c);
            lemma_infix_trans(stmt_sites(pats, cl.body@[j]), c, all);
        }
    }
}

proof fn lemma_expr_sites_in_list(pats: Seq<Pattern>, es: Seq<Expr>, k: int)
    requires
        0 <= k < es.len(),
    ensures
        is_infix(expr_sites(pats, es[k]), exprs_sites(pats, es)),
    decreases es.len(),
{
    let prev = exprs_sites(pats, es.drop_last());
    let last = expr_sites(pats, es.last());
    lemma_infix_right(prev, last);
    if k < es.len() - 1 {
        lemma_expr_sites_in_list(pats, es.drop_last(), k);
        assert(es.drop_last()[k] == es[k]);
        lemma_infix_left(prev, last);
        lemma_infix_trans(expr_sites(pats, es[k]), prev, prev + last);
    }
}

/// The calls of an expression are recorded everywhere inside it: the call
/// itself, unless directly awaited, and the calls of each direct
/// sub-expression, except inside a `lambda` (whose body does not run when the
/// function does).
pub proof fn law_sites_cover_expression(pats: Seq<Pattern>, e: Expr)
    ensures
        !(e.node is Lambda) && !(e.node is Await && e.node->Await_0.node is Call) ==> forall|k: int|
            0 <= k < children(e).len() ==> is_infix(
                expr_sites(pats, #[trigger] children(e)[k]),
                expr_sites(pats, e),
            ),
        e.node is Await && e.node->Await_0.node is Call ==> forall|k: int|
            0 <= k < children(*e.node->Await_0).len() ==> is_infix(
                expr_sites(pats, #[trigger] children(*e.node->Await_0)[k]),
                expr_sites(pats, e),
            ),
        e.node is Call ==> expr_sites(pats, e).contains(site_of(pats, e.start, *e.node->Call_0)),
{
    assert forall|x: Expr| !(x.node is Lambda) implies forall|k: int|
        0 <= k < children(x).len() ==> is_infix(
            expr_sites(pats, #[trigger] children(x)[k]),
            walk_sites(pats, x),
        ) by {
        let all = walk_sites(pats, x);
        assert forall|k: int| 0 <= k < children(x).len() implies is_infix(
            expr_sites(pats, #[trigger] children(x)[k]),
            all,
        ) by {
            let c = children(x)[k];
            match x.node {
                ExprNode::Name(_) => {},
                ExprNode::Attribute(_, _) => lemma_infix_self(all),
                ExprNode::Call(func, args) => {
                    let f = expr_sites(pats, *func);
                    let a = exprs_sites(pats, args@);
                    if k == 0 {
                        lemma_infix_left(f, a);
                    } else {
                        assert(c == args@[k - 1]);
                        lemma_expr_sites_in_list(pats, args@, k - 1);
                        lemma_infix_right(f, a);
                        lemma_infix_trans(expr_sites(pats, c), a, all);
                    }
                },
                ExprNode::Subscript(value, slice) => {
                    lemma_infix_left(expr_sites(pats, *value), expr_sites(pats, *slice));
                    lemma_infix_right(expr_sites(pats, *value), expr_sites(pats, *slice));
                },
                ExprNode::Await(_) => lemma_infix_self(all),
                ExprNode::Lambda(parts) => {},
                ExprNode::Other(parts) => lemma_expr_sites_in_list(pats, parts@, k),
            }
        }
    }
    let all = expr_sites(pats, e);
    match e.node {
        ExprNode::Call(func, _) => {
            let own = seq![site_of(pats, e.start, *func)];
            let w = walk_sites(pats, e);
            lemma_infix_right(own, w);
            lemma_infix_left(own, w);
            lemma_infix_contains(own, all, own[0]);
            assert forall|k: int| 0 <= k < children(e).len() implies is_infix(
                expr_sites(pats, #[trigger] children(e)[k]),
                all,
            ) by {
                lemma_infix_trans(expr_sites(pats, children(e)[k]), w, all);
            }
        },
        ExprNode::Await(value) => {
            if !(value.node is Call) {
                assert(all == walk_sites(pats, e));
            }
        },
        _ => {},
    }
}

/// The calls of a statement that runs as part of a function are recorded:
/// those of each of its expressions and of each statement nested in it, `if`
/// tests and `elif` tests included; a nested `def` is a function of its own
/// and lends it none.
pub proof fn law_sites_cover_statement(pats: Seq<Pattern>, s: Stmt)
    ensures
        s.node is FunctionDef ==> stmt_sites(pats, s) == Seq::<SiteView>::empty(),
        ({
            let all = stmt_sites(pats, s);
            match s.node {
                StmtNode::ClassDef { exprs, body, .. } => {
                    &&& forall|j: int| 0 <= j < exprs@.len() ==> is_infix(expr_sites(pats, #[trigger] exprs@[j]), all)
                    &&& forall|j: int| 0 <= j < body@.len() ==> is_infix(stmt_sites(pats, #[trigger] body@[j]), all)
                },
                StmtNode::AnnAssign { annotation, exprs } => {
                    &&& is_infix(expr_sites(pats, annotation), all)
                    &&& forall|j: int| 0 <= j < exprs@.len() ==> is_infix(expr_sites(pats, #[trigger] exprs@[j]), all)
                },
                StmtNode::If { test, clauses, .. } => {
                    &&& is_infix(expr_sites(pats, test), all)
                    &&& forall|k: int| 0 <= k < clauses@.len() && (#[trigger] clauses@[k]).test is Some
                        ==> is_infix(expr_sites(pats, clauses@[k].test->0), all)
                },
                StmtNode::Other { exprs, body } => {
                    &&& forall|j: int| 0 <= j < exprs@.len() ==> is_infix(expr_sites(pats, #[trigger] exprs@[j]), all)
                    &&& forall|j: int| 0 <= j < body@.len() ==> is_infix(stmt_sites(pats, #[trigger] body@[j]), all)
                },
                _ => true,
            }
        }),
{
    let all = stmt_sites(pats, s);
    match s.node {
        StmtNode::FunctionDef { .. } => {},
        StmtNode::ClassDef { exprs, body, .. } => {
            let c = exprs_sites(pats, exprs@);
            let d = stmts_sites(pats, body@);
            lemma_infix_left(c, d);
            lemma_infix_right(c, d);
            assert forall|j: int| 0 <= j < exprs@.len() implies is_infix(expr_sites(pats, #[trigger] exprs@[j]), all) by {
                lemma_expr_sites_in_list(pats, exprs@, j);
                lemma_infix_trans(expr_sites(pats, exprs@[j]), c, all);
            }
            assert forall|j: int| 0 <= j < body@.len() implies is_infix(stmt_sites(pats, #[trigger] body@[j]), all) by {
                lemma_stmt_sites_in_list(pats, body@, j);
                lemma_infix_trans(stmt_sites(pats, body@[j]), d, all);
            }
        },
        StmtNode::AnnAssign { annotation, exprs } => {
            let a = expr_sites(pats, annotation);
            let c = exprs_sites(pats, exprs@);
            lemma_infix_left(a, c);
            lemma_infix_right(a, c);
            assert forall|j: int| 0 <= j < exprs@.len() implies is_infix(expr_sites(pats, #[trigger] exprs@[j]), all) by {
                lemma_expr_sites_in_list(pats, exprs@, j);
                lemma_infix_trans(expr_sites(pats, exprs@[j]), c, all);
            }
        },
        StmtNode::If { test, body, clauses } => {
            let t = expr_sites(pats, test);
            let b = stmts_sites(pats, body@);
            let c = clauses_sites(pats, clauses@);
            lemma_infix_in3(t, b, c);
            assert forall|k: int| 0 <= k < clauses@.len() && (#[trigger] clauses@[k]).test is Some
                implies is_infix(expr_sites(pats, clauses@[k].test->0), all) by {
                let cl = clauses@[k];
                let td = expr_sites(pats, cl.test->0);
                let bd = stmts_sites(pats, cl.body@);
                assert(clause_sites(pats, cl) == td + bd);
                lemma_infix_left(td, bd);
                lemma_clause_sites_in_list(pats, clauses@, k);
                lemma_infix_trans(td, td + bd, c);
                lemma_infix_trans(td, c, all);
            }
        },
        StmtNode::Other { exprs, body } => {
            let c = exprs_sites(pats, exprs@);
            let d = stmts_sites(pats, body@);
            lemma_infix_left(c, d);
            lemma_infix_right(c, d);
            assert forall|j: int| 0 <= j < exprs@.len() implies is_infix(expr_sites(pats, #[trigger] exprs@[j]), all) by {
                lemma_expr_sites_in_list(pats, exprs@, j);
                lemma_infix_trans(expr_sites(pats, exprs@[j]), c, all);
            }
            assert forall|j: int| 0 <= j < body@.len() implies is_infix(stmt_sites(pats, #[trigger] body@[j]), all) by {
                lemma_stmt_sites_in_list(pats, body@, j);
                lemma_infix_trans(stmt_sites(pats, body@[j]), d, all);
            }
        },
    }
}

proof fn lemma_stmt_functions_in_list(pats: Seq<Pattern>, file: usize, ss: Seq<Stmt>, class: Option<Seq<u8>>, j: int)
    requires
        0 <= j < ss.len(),
    ensures
        is_infix(stmt_functions(pats, file, ss[j], class), stmts_functions(pats, file, ss, class)),
    decreases ss.len(),
{
    let prev = stmts_functions(pats, file, ss.drop_last(), class);
    let last = stmt_functions(pats, file, ss.last(), class);
    lemma_infix_right(prev, last);
    if j < ss.len() - 1 {
        lemma_stmt_functions_in_list(pats, file, ss.drop_last(), class, j);
        assert(ss.drop_last()[j] == ss[j]);
        lemma_infix_left(prev, last);
        lemma_infix_trans(stmt_functions(pats, file, ss[j], class), prev, prev + last);
    }
}

proof fn lemma_clause_functions_in_list(pats: Seq<Pattern>, file: usize, cs: Seq<ElifElse>, class: Option<Seq<u8>>, k: int)
    requires
        0 <= k < cs.len(),
    ensures
        is_infix(stmts_functions(pats, file, cs[k].body@, class), clauses_functions(pats, file, cs, class)),
    decreases cs.len(),
{
    let prev = clauses_functions(pats, file, cs.drop_last(), class);
    let last = stmts_functions(pats, file, cs.last().body@, class);
    lemma_infix_right(prev, last);
    if k < cs.len() - 1 {
        lemma_clause_functions_in_list(pats, file, cs.drop_last(), class, k);
        assert(cs.drop_last()[k] == cs[k]);
        lemma_infix_left(prev, last);
        lemma_infix_trans(stmts_functions(pats, file, cs[k].body@, class), prev, prev + last);
    }
}

/// Every definition is gathered: a `def` comes first with its name, the class
/// whose body holds it, whether it is async, and the calls of its body, and
/// is followed by the functions nested in it (which belong to no class); a
/// `class` lends its name to the definitions of its body; the statements
/// nested in an `if` (every branch) or any other statement keep the class.
pub proof fn law_functions_cover_statement(pats: Seq<Pattern>, file: usize, s: Stmt, class: Option<Seq<u8>>)
    ensures
        ({
            let all = stmt_functions(pats, file, s, class);
            match s.node {
                StmtNode::FunctionDef { name, is_async, body, .. } => {
                    &&& all.len() >= 1
                    &&& all[0] == (FunctionView { file, name: name@, class, is_async, sites: stmts_sites(pats, body@) })
                    &&& forall|j: int| 0 <= j < body@.len() ==> is_infix(
                        stmt_functions(pats, file, #[trigger] body@[j], None),
                        all,
                    )
                },
                StmtNode::ClassDef { name, body, .. } => forall|j: int|
                    0 <= j < body@.len() ==> is_infix(
                        stmt_functions(pats, file, #[trigger] body@[j], Some(name@)),
                        all,
                    ),
                StmtNode::If { body, clauses, .. } => {
                    &&& forall|j: int| 0 <= j < body@.len() ==> is_infix(
                        stmt_functions(pats, file, #[trigger] body@[j], class),
                        all,
                    )
                    &&& forall|k: int, j: int|
                        0 <= k < clauses@.len() && 0 <= j < clauses@[k].body@.len() ==> is_infix(
                            stmt_functions(pats, file, #[trigger] clauses@[k].body@[j], class),
                            all,
                        )
                },
                StmtNode::Other { body, .. } => forall|j: int|
                    0 <= j < body@.len() ==> is_infix(
                        stmt_functions(pats, file, #[trigger] body@[j], class),
                        all,
                    ),
                StmtNode::AnnAssign { .. } => true,
            }
        }),
{
    let all = stmt_functions(pats, file, s, class);
    match s.node {
        StmtNode::FunctionDef { name, is_async, body, .. } => {
            let own = seq![FunctionView { file, name: name@, class, is_async, sites: stmts_sites(pats, body@) }];
            let rest = stmts_functions(pats, file, body@, None);
            lemma_infix_right(own, rest);
            assert forall|j: int| 0 <= j < body@.len() implies is_infix(
                stmt_functions(pats, file, #[trigger] body@[j], None),
                all,
            ) by {
                lemma_stmt_functions_in_list(pats, file, body@, None, j);
                lemma_infix_trans(stmt_functions(pats, file, body@[j], None), rest, all);
            }
        },
        StmtNode::ClassDef { name, body, .. } => {
            assert forall|j: int| 0 <= j < body@.len() implies is_infix(
                stmt_functions(pats, file, #[trigger] body@[j], Some(name@)),
                all,
            ) by {
                lemma_stmt_functions_in_list(pats, file, body@, Some(name@), j);
            }
        },
        StmtNode::If { body, clauses, .. } => {
            let b = stmts_functions(pats, file, body@, class);
            let c = clauses_functions(pats, file, clauses@, class);
            lemma_infix_left(b, c);
            lemma_infix_right(b, c);
            assert forall|j: int| 0 <= j < body@.len() implies is_infix(
                stmt_functions(pats, file, #[trigger] body@[j], class),
                all,
            ) by {
                lemma_stmt_functions_in_list(pats, file, body@, class, j);
                lemma_infix_trans(stmt_functions(pats, file, body@[j], class), b, all);
            }
            assert forall|k: int, j: int|
                0 <= k < clauses@.len() && 0 <= j < clauses@[k].body@.len() implies is_infix(
                stmt_functions(pats, file, #[trigger] clauses@[k].body@[j], class),
                all,
            ) by {
                let cb = stmts_functions(pats, file, clauses@[k].body@, class);
                lemma_stmt_functions_in_list(pats, file, clauses@[k].body@, class, j);
                lemma_clause_functions_in_list(pats, file, clauses@, class, k);
                lemma_infix_trans(stmt_functions(pats, file, clauses@[k].body@[j], class), cb, c);
                lemma_infix_trans(stmt_functions(pats, file, clauses@[k].body@[j], class), c, all);
            }
        },
        StmtNode::Other { body, .. } => {
            assert forall|j: int| 0 <= j < body@.len() implies is_infix(
                stmt_functions(pats, file, #[trigger] body@[j], class),
                all,
            ) by {
                lemma_stmt_functions_in_list(pats, file, body@, class, j);
            }
        },
        StmtNode::AnnAssign { .. } => {},
    }
}

/// The functions of a program hold, unbroken, those of every top-level
/// statement of every file, gathered with that file's index and no class.
pub proof fn law_program_covers_every_file(pats: Seq<Pattern>, files: Seq<SourceFile>)
    ensures
        forall|f: int, j: int|
            0 <= f < files.len() && 0 <= j < files[f].module@.len() ==> is_infix(
                stmt_functions(pats, f as usize, #[trigger] files[f].module@[j], None),
                program_functions(pats, files),
            ),
    decreases files.len(),
{
    if files.len() > 0 {
        law_program_covers_every_file(pats, files.drop_last());
        let prev = program_functions(pats, files.drop_last());
        let file = (files.len() - 1) as usize;
        let last = stmts_functions(pats, file, files.last().module@, None);
        let all = program_functions(pats, files);
        lemma_infix_left(prev, last);
        lemma_infix_right(prev, last);
        assert forall|f: int, j: int|
            0 <= f < files.len() && 0 <= j < files[f].module@.len() implies is_infix(
            stmt_functions(pats, f as usize, #[trigger] files[f].module@[j], None),
            all,
        ) by {
            if f < files.len() - 1 {
                assert(files.drop_last()[f] == files[f]);
                lemma_infix_trans(stmt_functions(pats, f as usize, files[f].module@[j], None), prev, all);
            } else {
                lemma_stmt_functions_in_list(pats, file, files.last().module@, None, j);
                lemma_infix_trans(stmt_functions(pats, f as usize, files[f].module@[j], None), last, all);
            }
        }
    }
}

} // verus!
