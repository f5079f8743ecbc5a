//! The checks themselves: a walk over the syntax tree that records findings
//! as offsets, before any line or comment is looked at.
//!
//! ASYNC200: inside `async def` bodies (a nested `def` or `lambda` resets the
//! context), every call that is not directly awaited has its callee's text
//! matched against the configured patterns; the first pattern that matches is
//! reported.
//!
//! Type escape hatches: `getattr(...)`/`hasattr(...)` calls anywhere
//! (no-getattr), and `Any` (no-any) or `object` (no-object) anywhere inside an
//! annotation.
use vstd::prelude::*;
use vstd::string::StringSliceAdditionalSpecFns;
use crate::ast::{children, unparse, unparsed, is_typing_any, spec_is_typing_any, Expr, ExprNode, Stmt, StmtNode, ElifElse};
use crate::seqs::{
    is_infix, lemma_infix_concat, lemma_infix_contains, lemma_infix_in3, lemma_infix_in4, lemma_infix_left,
    lemma_infix_right, lemma_infix_self, lemma_infix_trans,
};
use crate::bytes::bytes_eq;
use crate::glob::{glob_match, glob_matches};

verus! {

/// A blocking-call pattern and the replacement that the report suggests.
pub struct Pattern {
    pub glob: Vec<u8>,
    pub replacement: Vec<u8>,
}

/// Which type escape hatch rules are enabled.
#[derive(Clone, Copy)]
pub struct Hatches {
    pub no_any: bool,
    pub no_getattr: bool,
    pub no_object: bool,
}

impl Default for Hatches {
    fn default() -> (r: Hatches)
        ensures
            !r.no_any && !r.no_getattr && !r.no_object,
    {
        Hatches { no_any: false, no_getattr: false, no_object: false }
    }
}

/// What a type escape hatch finding is about.
#[derive(Clone, Copy, PartialEq, Eq, Structural, Debug)]
pub enum HatchKind {
    /// `Any` inside an annotation.
    AnyInAnnotation,
    /// `object` inside an annotation.
    ObjectInAnnotation,
    /// A bare `getattr(...)` call.
    GetattrCall,
    /// A bare `hasattr(...)` call.
    HasattrCall,
}

/// A finding located by byte offsets.
#[derive(Clone, Copy, PartialEq, Eq, Structural, Debug)]
pub enum Diag {
    /// A blocking call at `offset` in an async function, matched first by the
    /// pattern at `pattern_idx`.
    Async200 { offset: u32, pattern_idx: usize },
    /// A type escape hatch at `offset`. `span_start..span_end` is the enclosing
    /// statement or signature, whose lines are searched for suppression
    /// comments and whose first line is reported.
    Hatch { kind: HatchKind, offset: u32, span_start: u32, span_end: u32 },
}

/// The index of the first pattern at or after `i` whose glob matches `name`.
pub open spec fn first_match_from(pats: Seq<Pattern>, name: Seq<u8>, i: int) -> Option<int>
    decreases pats.len() - i,
{
    if i < 0 || i >= pats.len() {
        None
    } else if glob_matches(pats[i].glob@, name) {
        Some(i)
    } else {
        first_match_from(pats, name, i + 1)
    }
}

/// The index of the first pattern whose glob matches `name`.
pub open spec fn first_match(pats: Seq<Pattern>, name: Seq<u8>) -> Option<int> {
    first_match_from(pats, name, 0)
}

/// A one-element sequence, or an empty one.
pub open spec fn one_if(cond: bool, d: Diag) -> Seq<Diag> {
    if cond {
        seq![d]
    } else {
        seq![]
    }
}

/// A banned `getattr(...)`/`hasattr(...)` call at `call`, when no-getattr is
/// enabled; it carries the enclosing statement's span, or the call's own.
pub open spec fn banned_call_diags(h: Hatches, call: Expr, span: Option<(u32, u32)>) -> Seq<Diag> {
    let (ss, se) = match span {
        Some(s) => s,
        None => (call.start, call.end),
    };
    match call.node {
        ExprNode::Call(func, _) => match func.node {
            ExprNode::Name(n) => if h.no_getattr && n@ == "getattr".spec_bytes() {
                seq![Diag::Hatch { kind: HatchKind::GetattrCall, offset: call.start, span_start: ss, span_end: se }]
            } else if h.no_getattr && n@ == "hasattr".spec_bytes() {
                seq![Diag::Hatch { kind: HatchKind::HasattrCall, offset: call.start, span_start: ss, span_end: se }]
            } else {
                seq![]
            },
            _ => seq![],
        },
        _ => seq![],
    }
}

/// A blocking call at `call` in an async context, reported with the first
/// pattern that matches the callee's text.
pub open spec fn blocking_call_diags(pats: Seq<Pattern>, call: Expr, in_async: bool) -> Seq<Diag> {
    match call.node {
        ExprNode::Call(func, _) => if in_async {
            match first_match(pats, unparsed(*func)) {
                Some(i) => seq![Diag::Async200 { offset: call.start, pattern_idx: i as usize }],
                None => seq![],
            }
        } else {
            seq![]
        },
        _ => seq![],
    }
}

/// The findings on the call `call` itself: a banned `getattr`/`hasattr` call,
/// and, where `check_async200` holds, a blocking call in an async context.
/// `span` is the enclosing statement, if any.
pub open spec fn call_diags(
    pats: Seq<Pattern>,
    h: Hatches,
    call: Expr,
    in_async: bool,
    span: Option<(u32, u32)>,
    check_async200: bool,
) -> Seq<Diag> {
    banned_call_diags(h, call, span) + if check_async200 {
        blocking_call_diags(pats, call, in_async)
    } else {
        seq![]
    }
}

/// The findings of the checks inside `e`, itself included.
pub open spec fn expr_diags(
    pats: Seq<Pattern>,
    h: Hatches,
    e: Expr,
    in_async: bool,
    span: Option<(u32, u32)>,
) -> Seq<Diag>
    decreases e, 1int,
{
    match e.node {
        ExprNode::Lambda(_) => walk_diags(pats, h, e, false, span),
        ExprNode::Await(value) => match value.node {
            ExprNode::Call(_, _) => call_diags(pats, h, *value, in_async, span, false)
                + walk_diags(pats, h, *value, in_async, span),
            _ => walk_diags(pats, h, e, in_async, span),
        },
        ExprNode::Call(_, _) => call_diags(pats, h, e, in_async, span, true) + walk_diags(
            pats,
            h,
            e,
            in_async,
            span,
        ),
        _ => walk_diags(pats, h, e, in_async, span),
    }
}

/// The findings of the checks inside the direct sub-expressions of `e`.
pub open spec fn walk_diags(
    pats: Seq<Pattern>,
    h: Hatches,
    e: Expr,
    in_async: bool,
    span: Option<(u32, u32)>,
) -> Seq<Diag>
    decreases e, 0int,
{
    match e.node {
        ExprNode::Name(_) => seq![],
        ExprNode::Attribute(value, _) => expr_diags(pats, h, *value, in_async, span),
        ExprNode::Call(func, args) => expr_diags(pats, h, *func, in_async, span) + exprs_diags(
            pats,
            h,
            args@,
            in_async,
            span,
        ),
        ExprNode::Subscript(value, slice) => expr_diags(pats, h, *value, in_async, span)
            + expr_diags(pats, h, *slice, in_async, span),
        ExprNode::Await(value) => expr_diags(pats, h, *value, in_async, span),
        ExprNode::Lambda(parts) => exprs_diags(pats, h, parts@, in_async, span),
        ExprNode::Other(parts) => exprs_diags(pats, h, parts@, in_async, span),
    }
}

/// The findings of the checks inside each of `es`, in order.
pub open spec fn exprs_diags(
    pats: Seq<Pattern>,
    h: Hatches,
    es: Seq<Expr>,
    in_async: bool,
    span: Option<(u32, u32)>,
) -> Seq<Diag>
    decreases es, 0int,
{
    if es.len() == 0 {
        seq![]
    } else {
        exprs_diags(pats, h, es.drop_last(), in_async, span) + expr_diags(
            pats,
            h,
            es.last(),
            in_async,
            span,
        )
    }
}

/// The annotation findings inside `e` (every sub-expression included), each
/// carrying `span`.
pub open spec fn annotation_diags(h: Hatches, e: Expr, span: (u32, u32)) -> Seq<Diag>
    decreases e,
{
    let children = match e.node {
        ExprNode::Name(_) => seq![],
        ExprNode::Attribute(value, _) => annotation_diags(h, *value, span),
        ExprNode::Call(func, args) => annotation_diags(h, *func, span) + annotations_diags(
            h,
            args@,
            span,
        ),
        ExprNode::Subscript(value, slice) => annotation_diags(h, *value, span) + annotation_diags(
            h,
            *slice,
            span,
        ),
        ExprNode::Await(value) => annotation_diags(h, *value, span),
        ExprNode::Lambda(parts) => annotations_diags(h, parts@, span),
        ExprNode::Other(parts) => annotations_diags(h, parts@, span),
    };
    one_if(
        h.no_any && spec_is_typing_any(e),
        Diag::Hatch { kind: HatchKind::AnyInAnnotation, offset: e.start, span_start: span.0, span_end: span.1 },
    ) + one_if(
        h.no_object && (e.node matches ExprNode::Name(n) && n@ == "object".spec_bytes()),
        Diag::Hatch { kind: HatchKind::ObjectInAnnotation, offset: e.start, span_start: span.0, span_end: span.1 },
    ) + children
}

/// The annotation findings inside each of `es`, in order.
pub open spec fn annotations_diags(h: Hatches, es: Seq<Expr>, span: (u32, u32)) -> Seq<Diag>
    decreases es,
{
    if es.len() == 0 {
        seq![]
    } else {
        annotations_diags(h, es.drop_last(), span) + annotation_diags(h, es.last(), span)
    }
}

/// The annotation findings of `ann` when an annotation rule is enabled.
pub open spec fn scanned_diags(h: Hatches, ann: Expr, span: (u32, u32)) -> Seq<Diag> {
    if h.no_any || h.no_object {
        annotation_diags(h, ann, span)
    } else {
        seq![]
    }
}

/// `scanned_diags` over each of `anns`, in order.
pub open spec fn scanned_all(h: Hatches, anns: Seq<Expr>, span: (u32, u32)) -> Seq<Diag>
    decreases anns.len(),
{
    if anns.len() == 0 {
        seq![]
    } else {
        scanned_all(h, anns.drop_last(), span) + scanned_diags(h, anns.last(), span)
    }
}

/// The span of a function's signature: from its name to the start of its
/// first body statement (or the end of the function when the body is empty).
pub open spec fn signature_span(name_start: u32, body: Seq<Stmt>, end: u32) -> (u32, u32) {
    (name_start, if body.len() > 0 { body[0].start } else { end })
}

/// The offset a statement is reported at: the name of a `def` or `class`,
/// else the statement's start.
pub open spec fn anchor(s: Stmt) -> u32 {
    match s.node {
        StmtNode::FunctionDef { name_start, .. } => name_start,
        StmtNode::ClassDef { name_start, .. } => name_start,
        _ => s.start,
    }
}

/// The findings of the checks inside the statement `s`.
pub open spec fn stmt_diags(pats: Seq<Pattern>, h: Hatches, s: Stmt, in_async: bool) -> Seq<Diag>
    decreases s,
{
    let span = Some((anchor(s), s.end));
    match s.node {
        StmtNode::FunctionDef { name_start, is_async, annotations, exprs, body, .. } => scanned_all(
            h,
            annotations@,
            signature_span(name_start, body@, s.end),
        ) + exprs_diags(pats, h, annotations@, is_async, span) + exprs_diags(
            pats,
            h,
            exprs@,
            is_async,
            span,
        ) + stmts_diags(pats, h, body@, is_async),
        StmtNode::ClassDef { exprs, body, .. } => exprs_diags(pats, h, exprs@, in_async, span)
            + stmts_diags(pats, h, body@, in_async),
        StmtNode::AnnAssign { annotation, exprs } => scanned_diags(
            h,
            annotation,
            (s.start, s.end),
        ) + expr_diags(pats, h, annotation, in_async, span) + exprs_diags(
            pats,
            h,
            exprs@,
            in_async,
            span,
        ),
        StmtNode::If { test, body, clauses } => expr_diags(pats, h, test, in_async, span)
            + stmts_diags(pats, h, body@, in_async) + clauses_diags(
            pats,
            h,
            clauses@,
            in_async,
            s.end,
        ),
        StmtNode::Other { exprs, body } => exprs_diags(pats, h, exprs@, in_async, span)
            + stmts_diags(pats, h, body@, in_async),
    }
}

/// The findings of the checks inside each of `ss`, in order.
pub open spec fn stmts_diags(pats: Seq<Pattern>, h: Hatches, ss: Seq<Stmt>, in_async: bool) -> Seq<
    Diag,
>
    decreases ss,
{
    if ss.len() == 0 {
        seq![]
    } else {
        stmts_diags(pats, h, ss.drop_last(), in_async) + stmt_diags(pats, h, ss.last(), in_async)
    }
}

/// The findings inside an `elif`/`else` clause of an `if` statement ending at
/// `if_end`: an `elif` test belongs to a span from its keyword to `if_end`.
pub open spec fn clause_diags(
    pats: Seq<Pattern>,
    h: Hatches,
    c: ElifElse,
    in_async: bool,
    if_end: u32,
) -> Seq<Diag>
    decreases c,
{
    let test_diags = match c.test {
        Some(t) => expr_diags(pats, h, t, in_async, Some((c.start, if_end))),
        None => seq![],
    };
    test_diags + stmts_diags(pats, h, c.body@, in_async)
}

/// `clause_diags` over each of `cs`, in order.
pub open spec fn clauses_diags(
    pats: Seq<Pattern>,
    h: Hatches,
    cs: Seq<ElifElse>,
    in_async: bool,
    if_end: u32,
) -> Seq<Diag>
    decreases cs,
{
    if cs.len() == 0 {
        seq![]
    } else {
        clauses_diags(pats, h, cs.drop_last(), in_async, if_end) + clause_diags(
            pats,
            h,
            cs.last(),
            in_async,
            if_end,
        )
    }
}

/// The index of the first of `patterns` whose glob matches `name`.
pub fn first_matching(patterns: &[Pattern], name: &[u8]) -> (r: Option<usize>)
    ensures
        match first_match(patterns@, name@) {
            Some(i) => r == Some(i as usize) && 0 <= i < patterns@.len(),
            None => r is None,
        },
{
    let mut i: usize = 0;
    while i < patterns.len()
        invariant
            i <= patterns@.len(),
            first_match(patterns@, name@) == first_match_from(patterns@, name@, i as int),
        decreases patterns@.len() - i,
    {
        if glob_match(patterns[i].glob.as_slice(), name) {
            proof {
                lemma_first_match_in_range(patterns@, name@, i as int);
            }
            return Some(i);
        }
        i = i + 1;
    }
    None
}

/// The state of a walk over a module.
pub struct Checker<'a> {
    pub patterns: &'a [Pattern],
    pub hatches: Hatches,
    /// Whether the walk is inside an `async def` body.
    pub in_async: bool,
    /// The anchor and end of the nearest enclosing statement.
    pub stmt_span: Option<(u32, u32)>,
    pub diags: Vec<Diag>,
}

/// Scans an annotation for `Any` and `object`.
pub struct AnnScan {
    pub hatches: Hatches,
    pub span: (u32, u32),
}

impl AnnScan {
    /// Appends the annotation findings inside `expr` to `diags`.
    pub fn visit_expr(&self, expr: &Expr, diags: &mut Vec<Diag>)
        ensures
            final(diags)@ == old(diags)@ + annotation_diags(self.hatches, *expr, self.span),
        decreases expr,
    {
        let ghost d0 = diags@;
        let ghost h = self.hatches;
        if self.hatches.no_any && is_typing_any(expr) {
            diags.push(
                Diag::Hatch {
                    kind: HatchKind::AnyInAnnotation,
                    offset: expr.start,
                    span_start: self.span.0,
                    span_end: self.span.1,
                },
            );
        }
        let is_object = match &expr.node {
            ExprNode::Name(n) => bytes_eq(n.as_slice(), "object".as_bytes()),
            _ => false,
        };
        if self.hatches.no_object && is_object {
            diags.push(
                Diag::Hatch {
                    kind: HatchKind::ObjectInAnnotation,
                    offset: expr.start,
                    span_start: self.span.0,
                    span_end: self.span.1,
                },
            );
        }
        let ghost d1 = diags@;
        assert(d1 == d0 + one_if(
            h.no_any && spec_is_typing_any(*expr),
            Diag::Hatch { kind: HatchKind::AnyInAnnotation, offset: expr.start, span_start: self.span.0, span_end: self.span.1 },
        ) + one_if(
            h.no_object && (expr.node matches ExprNode::Name(n) && n@ == "object".spec_bytes()),
            Diag::Hatch { kind: HatchKind::ObjectInAnnotation, offset: expr.start, span_start: self.span.0, span_end: self.span.1 },
        ));
        match &expr.node {
            ExprNode::Name(_) => {},
            ExprNode::Attribute(value, _) => self.visit_expr(value, diags),
            ExprNode::Call(func, args) => {
                self.visit_expr(func, diags);
                self.visit_exprs(args, diags);
            },
            ExprNode::Subscript(value, slice) => {
                self.visit_expr(value, diags);
                self.visit_expr(slice, diags);
            },
            ExprNode::Await(value) => self.visit_expr(value, diags),
            ExprNode::Lambda(parts) => self.visit_exprs(parts, diags),
            ExprNode::Other(parts) => self.visit_exprs(parts, diags),
        }
    }

    /// Appends the annotation findings inside each of `exprs` to `diags`.
    pub fn visit_exprs(&self, exprs: &Vec<Expr>, diags: &mut Vec<Diag>)
        ensures
            final(diags)@ == old(diags)@ + annotations_diags(self.hatches, exprs@, self.span),
        decreases exprs,
    {
        let mut i: usize = 0;
        while i < exprs.len()
            invariant
                i <= exprs.len(),
                diags@ == old(diags)@ + annotations_diags(self.hatches, exprs@.take(i as int), self.span),
            decreases exprs.len() - i,
        {
            assert(exprs@.take(i + 1).drop_last() =~= exprs@.take(i as int));
            self.visit_expr(&exprs[i], diags);
            i = i + 1;
        }
        assert(exprs@.take(exprs.len() as int) =~= exprs@);
    }
}

/// Two walk states that differ at most in the findings recorded so far.
pub open spec fn same_walk(a: Checker, b: Checker) -> bool {
    &&& a.patterns@ == b.patterns@
    &&& a.hatches == b.hatches
    &&& a.in_async == b.in_async
    &&& a.stmt_span == b.stmt_span
}

impl<'a> Checker<'a> {
    /// Records the findings on the call `call` itself. `check_async200` is false
    /// for directly awaited calls, which ASYNC200 exempts; no-getattr applies to
    /// them regardless.
    pub fn check_call(&mut self, call: &Expr, check_async200: bool)
        requires
            call.node is Call,
        ensures
            same_walk(*final(self), *old(self)),
            final(self).diags@ == old(self).diags@ + call_diags(
                old(self).patterns@,
                old(self).hatches,
                *call,
                old(self).in_async,
                old(self).stmt_span,
                check_async200,
            ),
    {
        let func = match &call.node {
            ExprNode::Call(func, _) => func,
            _ => {
                return ;
            },
        };
        let ghost d0 = self.diags@;
        if self.hatches.no_getattr {
            if let ExprNode::Name(n) = &func.node {
                let is_getattr = bytes_eq(n.as_slice(), "getattr".as_bytes());
                let is_hasattr = bytes_eq(n.as_slice(), "hasattr".as_bytes());
                if is_getattr || is_hasattr {
                    let span = match self.stmt_span {
                        Some(s) => s,
                        None => (call.start, call.end),
                    };
                    let kind = if is_getattr {
                        HatchKind::GetattrCall
                    } else {
                        HatchKind::HasattrCall
                    };
                    self.diags.push(
                        Diag::Hatch { kind, offset: call.start, span_start: span.0, span_end: span.1 },
                    );
                }
            }
        }
        let ghost d1 = self.diags@;
        assert(d1 == d0 + banned_call_diags(self.hatches, *call, self.stmt_span));
        if !check_async200 || !self.in_async || self.patterns.len() == 0 {
            return ;
        }
        let mut name: Vec<u8> = Vec::new();
        unparse(func, &mut name);
        assert(name@ =~= unparsed(**func));
        if let Some(i) = first_matching(self.patterns, name.as_slice()) {
            self.diags.push(Diag::Async200 { offset: call.start, pattern_idx: i });
        }
    }

    /// Visits the callee and the arguments of `call`, but not the call itself.
    pub fn walk_call_children(&mut self, call: &Expr)
        requires
            call.node is Call,
        ensures
            same_walk(*final(self), *old(self)),
            final(self).diags@ == old(self).diags@ + walk_diags(
                old(self).patterns@,
                old(self).hatches,
                *call,
                old(self).in_async,
                old(self).stmt_span,
            ),
        decreases call, 0int,
    {
        if let ExprNode::Call(func, args) = &call.node {
            self.visit_expr(func);
            self.visit_exprs(args);
        }
    }

    /// Visits the direct sub-expressions of `expr`.
    pub fn walk_expr(&mut self, expr: &Expr)
        ensures
            same_walk(*final(self), *old(self)),
            final(self).diags@ == old(self).diags@ + walk_diags(
                old(self).patterns@,
                old(self).hatches,
                *expr,
                old(self).in_async,
                old(self).stmt_span,
            ),
        decreases expr, 1int,
    {
        match &expr.node {
            ExprNode::Name(_) => {},
            ExprNode::Attribute(value, _) => self.visit_expr(value),
            ExprNode::Call(_, _) => self.walk_call_children(expr),
            ExprNode::Subscript(value, slice) => {
                self.visit_expr(value);
                self.visit_expr(slice);
            },
            ExprNode::Await(value) => self.visit_expr(value),
            ExprNode::Lambda(parts) => self.visit_exprs(parts),
            ExprNode::Other(parts) => self.visit_exprs(parts),
        }
    }

    /// Visits each of `exprs` in order.
    pub fn visit_exprs(&mut self, exprs: &Vec<Expr>)
        ensures
            same_walk(*final(self), *old(self)),
            final(self).diags@ == old(self).diags@ + exprs_diags(
                old(self).patterns@,
                old(self).hatches,
                exprs@,
                old(self).in_async,
                old(self).stmt_span,
            ),
        decreases exprs, 0int,
    {
        let mut i: usize = 0;
        while i < exprs.len()
            invariant
                same_walk(*self, *old(self)),
                i <= exprs.len(),
                self.diags@ == old(self).diags@ + exprs_diags(
                    old(self).patterns@,
                    old(self).hatches,
                    exprs@.take(i as int),
                    old(self).in_async,
                    old(self).stmt_span,
                ),
            decreases exprs.len() - i,
        {
            assert(exprs@.take(i + 1).drop_last() =~= exprs@.take(i as int));
            self.visit_expr(&exprs[i]);
            i = i + 1;
        }
        assert(exprs@.take(exprs.len() as int) =~= exprs@);
    }

    /// Visits `expr`: checks every call in it, with nested `lambda`s outside
    /// the async context and directly awaited calls exempt from ASYNC200.
    pub fn visit_expr(&mut self, expr: &Expr)
        ensures
            same_walk(*final(self), *old(self)),
            final(self).diags@ == old(self).diags@ + expr_diags(
                old(self).patterns@,
                old(self).hatches,
                *expr,
                old(self).in_async,
                old(self).stmt_span,
            ),
        decreases expr, 2int,
    {
        match &expr.node {
            ExprNode::Lambda(_) => {
                let prev = self.in_async;
                self.in_async = false;
                self.walk_expr(expr);
                self.in_async = prev;
            },
            ExprNode::Await(value) => {
                if let ExprNode::Call(_, _) = &value.node {
                    self.check_call(value, false);
                    self.walk_call_children(value);
                } else {
                    self.walk_expr(expr);
                }
            },
            ExprNode::Call(_, _) => {
                self.check_call(expr, true);
                self.walk_expr(expr);
            },
            _ => self.walk_expr(expr),
        }
    }
}

impl<'a> Checker<'a> {
    /// Records the annotation findings inside `ann`, each carrying `span`, when
    /// an annotation rule is enabled.
    pub fn scan_annotation(&mut self, ann: &Expr, span: (u32, u32))
        ensures
            same_walk(*final(self), *old(self)),
            final(self).diags@ == old(self).diags@ + scanned_diags(old(self).hatches, *ann, span),
    {
        if !(self.hatches.no_any || self.hatches.no_object) {
            return ;
        }
        let scan = AnnScan { hatches: self.hatches, span };
        scan.visit_expr(ann, &mut self.diags);
    }

    /// Records the annotation findings of a function's parameters and return
    /// annotation. The span runs from the `def` name to the first body
    /// statement, wide enough that line wrapping cannot orphan a suppression
    /// comment.
    pub fn function_hatches(&mut self, f: &Stmt)
        requires
            f.node is FunctionDef,
        ensures
            same_walk(*final(self), *old(self)),
            final(self).diags@ == old(self).diags@ + scanned_all(
                old(self).hatches,
                f.node->FunctionDef_annotations@,
                signature_span(f.node->FunctionDef_name_start, f.node->FunctionDef_body@, f.end),
            ),
    {
        if let StmtNode::FunctionDef { name_start, annotations, body, .. } = &f.node {
            let end = if body.len() > 0 {
                body[0].start
            } else {
                f.end
            };
            let span = (*name_start, end);
            let mut i: usize = 0;
            while i < annotations.len()
                invariant
                    same_walk(*self, *old(self)),
                    i <= annotations.len(),
                    self.diags@ == old(self).diags@ + scanned_all(
                        old(self).hatches,
                        annotations@.take(i as int),
                        span,
                    ),
                decreases annotations.len() - i,
            {
                assert(annotations@.take(i + 1).drop_last() =~= annotations@.take(i as int));
                self.scan_annotation(&annotations[i], span);
                i = i + 1;
            }
            assert(annotations@.take(annotations.len() as int) =~= annotations@);
        }
    }

    /// Records the annotation findings of an annotated assignment, with the
    /// statement as the span.
    pub fn ann_assign_hatches(&mut self, a: &Stmt)
        requires
            a.node is AnnAssign,
        ensures
            same_walk(*final(self), *old(self)),
            final(self).diags@ == old(self).diags@ + scanned_diags(
                old(self).hatches,
                a.node->AnnAssign_annotation,
                (a.start, a.end),
            ),
    {
        if let StmtNode::AnnAssign { annotation, .. } = &a.node {
            self.scan_annotation(annotation, (a.start, a.end));
        }
    }

    /// Visits each of `body` in order.
    pub fn visit_body(&mut self, body: &Vec<Stmt>)
        ensures
            same_walk(*final(self), *old(self)),
            final(self).diags@ == old(self).diags@ + stmts_diags(
                old(self).patterns@,
                old(self).hatches,
                body@,
                old(self).in_async,
            ),
        decreases body, 0int,
    {
        let mut i: usize = 0;
        while i < body.len()
            invariant
                same_walk(*self, *old(self)),
                i <= body.len(),
                self.diags@ == old(self).diags@ + stmts_diags(
                    old(self).patterns@,
                    old(self).hatches,
                    body@.take(i as int),
                    old(self).in_async,
                ),
            decreases body.len() - i,
        {
            assert(body@.take(i + 1).drop_last() =~= body@.take(i as int));
            self.visit_stmt(&body[i]);
            i = i + 1;
        }
        assert(body@.take(body.len() as int) =~= body@);
    }

    /// Visits `stmt`. The reported line of a `def` or `class` is that of its
    /// name, not of its decorators; a `def` sets the async context for all of
    /// it; an `elif` test belongs to a span from its keyword to the end of the
    /// `if` statement.
    #[verifier::rlimit(40)]
    pub fn visit_stmt(&mut self, stmt: &Stmt)
        ensures
            same_walk(*final(self), *old(self)),
            final(self).diags@ == old(self).diags@ + stmt_diags(
                old(self).patterns@,
                old(self).hatches,
                *stmt,
                old(self).in_async,
            ),
        decreases stmt, 1int,
    {
        let anchor = match &stmt.node {
            StmtNode::FunctionDef { name_start, .. } => *name_start,
            StmtNode::ClassDef { name_start, .. } => *name_start,
            _ => stmt.start,
        };
        let prev = self.stmt_span;
        self.stmt_span = Some((anchor, stmt.end));
        match &stmt.node {
            StmtNode::FunctionDef { is_async, annotations, exprs, body, .. } => {
                self.function_hatches(stmt);
                let prev_async = self.in_async;
                self.in_async = *is_async;
                self.visit_exprs(annotations);
                self.visit_exprs(exprs);
                self.visit_body(body);
                self.in_async = prev_async;
            },
            StmtNode::AnnAssign { annotation, exprs } => {
                self.ann_assign_hatches(stmt);
                self.visit_expr(annotation);
                self.visit_exprs(exprs);
            },
            StmtNode::If { test, body, clauses } => {
                self.visit_expr(test);
                self.visit_body(body);
                let ghost d0 = self.diags@;
                let mut i: usize = 0;
                while i < clauses.len()
                    invariant
                        i <= clauses.len(),
                        stmt.node is If,
                        stmt.node->If_clauses == *clauses,
                        self.patterns@ == old(self).patterns@,
                        self.hatches == old(self).hatches,
                        self.in_async == old(self).in_async,
                        self.stmt_span == Some((anchor, stmt.end)),
                        self.diags@ == d0 + clauses_diags(
                            old(self).patterns@,
                            old(self).hatches,
                            clauses@.take(i as int),
                            old(self).in_async,
                            stmt.end,
                        ),
                    decreases clauses.len() - i,
                {
                    assert(clauses@.take(i + 1).drop_last() =~= clauses@.take(i as int));
                    assert(clauses@.take(i + 1).last() == clauses@[i as int]);
                    let clause = &clauses[i];
                    proof {
                        assert(decreases_to!(*stmt => stmt.node));
                        assert(decreases_to!(stmt.node => stmt.node->If_clauses));
                        assert(decreases_to!(stmt.node->If_clauses => clauses@));
                        assert(decreases_to!(clauses@ => clauses@[i as int]));
                        assert(decreases_to!(clauses@[i as int] => clause.body));
                    }
                    let ghost before = self.diags@;
                    if let Some(t) = &clause.test {
                        let prev_span = self.stmt_span;
                        self.stmt_span = Some((clause.start, stmt.end));
                        self.visit_expr(t);
                        self.stmt_span = prev_span;
                    }
                    self.visit_body(&clause.body);
                    assert(self.diags@ == before + clause_diags(
                        old(self).patterns@,
                        old(self).hatches,
                        *clause,
                        old(self).in_async,
                        stmt.end,
                    ));
                    i = i + 1;
                }
                assert(clauses@.take(clauses.len() as int) =~= clauses@);
            },
            StmtNode::ClassDef { exprs, body, .. } => {
                self.visit_exprs(exprs);
                self.visit_body(body);
            },
            StmtNode::Other { exprs, body } => {
                self.visit_exprs(exprs);
                self.visit_body(body);
            },
        }
        self.stmt_span = prev;
    }
}

/// Walks a module's top-level statements and returns the findings, located by
/// byte offsets, in walk order.
pub fn check_module(module: &Vec<Stmt>, patterns: &[Pattern], hatches: Hatches) -> (r: Vec<Diag>)
    ensures
        r@ == stmts_diags(patterns@, hatches, module@, false),
{
    let mut checker = Checker {
        patterns,
        hatches,
        in_async: false,
        stmt_span: None,
        diags: Vec::new(),
    };
    checker.visit_body(module);
    checker.diags
}

/// Every ASYNC200 finding of `ds` names a pattern of `pats`.
pub open spec fn patterns_in_range(pats: Seq<Pattern>, ds: Seq<Diag>) -> bool {
    forall|i: int|
        0 <= i < ds.len() ==> (#[trigger] ds[i] matches Diag::Async200 { pattern_idx, .. }
            ==> pattern_idx < pats.len())
}

proof fn lemma_concat_in_range(pats: Seq<Pattern>, a: Seq<Diag>, b: Seq<Diag>)
    requires
        patterns_in_range(pats, a),
        patterns_in_range(pats, b),
    ensures
        patterns_in_range(pats, a + b),
{
    assert forall|i: int| 0 <= i < (a + b).len() implies (#[trigger] (a + b)[i] matches Diag::Async200 {
        pattern_idx,
        ..
    } ==> pattern_idx < pats.len()) by {
        if i < a.len() {
            assert((a + b)[i] == a[i]);
        } else {
            assert((a + b)[i] == b[i - a.len()]);
        }
    }
}

proof fn lemma_first_match_in_range(pats: Seq<Pattern>, name: Seq<u8>, i: int)
    ensures
        first_match_from(pats, name, i) matches Some(k) ==> 0 <= k < pats.len(),
    decreases pats.len() - i,
{
    if 0 <= i < pats.len() {
        lemma_first_match_in_range(pats, name, i + 1);
    }
}

proof fn lemma_call_in_range(
    pats: Seq<Pattern>,
    h: Hatches,
    call: Expr,
    in_async: bool,
    span: Option<(u32, u32)>,
    check: bool,
)
    ensures
        patterns_in_range(pats, call_diags(pats, h, call, in_async, span, check)),
{
    if let ExprNode::Call(func, _) = call.node {
        lemma_first_match_in_range(pats, unparsed(*func), 0);
        assert(patterns_in_range(pats, banned_call_diags(h, call, span)));
        assert(patterns_in_range(pats, blocking_call_diags(pats, call, in_async)));
        assert(patterns_in_range(pats, Seq::<Diag>::empty()));
        lemma_concat_in_range(
            pats,
            banned_call_diags(h, call, span),
            if check {
                blocking_call_diags(pats, call, in_async)
            } else {
                seq![]
            },
        );
    }
}

proof fn lemma_expr_in_range(
    pats: Seq<Pattern>,
    h: Hatches,
    e: Expr,
    in_async: bool,
    span: Option<(u32, u32)>,
)
    ensures
        patterns_in_range(pats, expr_diags(pats, h, e, in_async, span)),
    decreases e, 1int,
{
    match e.node {
        ExprNode::Lambda(_) => lemma_walk_in_range(pats, h, e, false, span),
        ExprNode::Await(value) => match value.node {
            ExprNode::Call(_, _) => {
                lemma_call_in_range(pats, h, *value, in_async, span, false);
                lemma_walk_in_range(pats, h, *value, in_async, span);
                lemma_concat_in_range(
                    pats,
                    call_diags(pats, h, *value, in_async, span, false),
                    walk_diags(pats, h, *value, in_async, span),
                );
            },
            _ => lemma_walk_in_range(pats, h, e, in_async, span),
        },
        ExprNode::Call(_, _) => {
            lemma_call_in_range(pats, h, e, in_async, span, true);
            lemma_walk_in_range(pats, h, e, in_async, span);
            lemma_concat_in_range(
                pats,
                call_diags(pats, h, e, in_async, span, true),
                walk_diags(pats, h, e, in_async, span),
            );
        },
        _ => lemma_walk_in_range(pats, h, e, in_async, span),
    }
}

proof fn lemma_walk_in_range(
    pats: Seq<Pattern>,
    h: Hatches,
    e: Expr,
    in_async: bool,
    span: Option<(u32, u32)>,
)
    ensures
        patterns_in_range(pats, walk_diags(pats, h, e, in_async, span)),
    decreases e, 0int,
{
    match e.node {
        ExprNode::Name(_) => {},
        ExprNode::Attribute(value, _) => lemma_expr_in_range(pats, h, *value, in_async, span),
        ExprNode::Call(func, args) => {
            lemma_expr_in_range(pats, h, *func, in_async, span);
            lemma_exprs_in_range(pats, h, args@, in_async, span);
            lemma_concat_in_range(
                pats,
                expr_diags(pats, h, *func, in_async, span),
                exprs_diags(pats, h, args@, in_async, span),
            );
        },
        ExprNode::Subscript(value, slice) => {
            lemma_expr_in_range(pats, h, *value, in_async, span);
            lemma_expr_in_range(pats, h, *slice, in_async, span);
            lemma_concat_in_range(
                pats,
                expr_diags(pats, h, *value, in_async, span),
                expr_diags(pats, h, *slice, in_async, span),
            );
        },
        ExprNode::Await(value) => lemma_expr_in_range(pats, h, *value, in_async, span),
        ExprNode::Lambda(parts) => lemma_exprs_in_range(pats, h, parts@, in_async, span),
        ExprNode::Other(parts) => lemma_exprs_in_range(pats, h, parts@, in_async, span),
    }
}

proof fn lemma_exprs_in_range(
    pats: Seq<Pattern>,
    h: Hatches,
    es: Seq<Expr>,
    in_async: bool,
    span: Option<(u32, u32)>,
)
    ensures
        patterns_in_range(pats, exprs_diags(pats, h, es, in_async, span)),
    decreases es, 0int,
{
    if es.len() > 0 {
        lemma_exprs_in_range(pats, h, es.drop_last(), in_async, span);
        lemma_expr_in_range(pats, h, es.last(), in_async, span);
        lemma_concat_in_range(
            pats,
            exprs_diags(pats, h, es.drop_last(), in_async, span),
            expr_diags(pats, h, es.last(), in_async, span),
        );
    }
}

/// Annotation findings are all type escape hatches.
proof fn lemma_annotation_in_range(pats: Seq<Pattern>, h: Hatches, e: Expr, span: (u32, u32))
    ensures
        patterns_in_range(pats, annotation_diags(h, e, span)),
    decreases e, 1int,
{
    let own = one_if(
        h.no_any && spec_is_typing_any(e),
        Diag::Hatch { kind: HatchKind::AnyInAnnotation, offset: e.start, span_start: span.0, span_end: span.1 },
    ) + one_if(
        h.no_object && (e.node matches ExprNode::Name(n) && n@ == "object".spec_bytes()),
        Diag::Hatch { kind: HatchKind::ObjectInAnnotation, offset: e.start, span_start: span.0, span_end: span.1 },
    );
    assert(patterns_in_range(pats, own));
    let children = match e.node {
        ExprNode::Name(_) => seq![],
        ExprNode::Attribute(value, _) => annotation_diags(h, *value, span),
        ExprNode::Call(func, args) => annotation_diags(h, *func, span) + annotations_diags(
            h,
            args@,
            span,
        ),
        ExprNode::Subscript(value, slice) => annotation_diags(h, *value, span) + annotation_diags(
            h,
            *slice,
            span,
        ),
        ExprNode::Await(value) => annotation_diags(h, *value, span),
        ExprNode::Lambda(parts) => annotations_diags(h, parts@, span),
        ExprNode::Other(parts) => annotations_diags(h, parts@, span),
    };
    match e.node {
        ExprNode::Name(_) => {},
        ExprNode::Attribute(value, _) => lemma_annotation_in_range(pats, h, *value, span),
        ExprNode::Call(func, args) => {
            lemma_annotation_in_range(pats, h, *func, span);
            lemma_annotations_in_range(pats, h, args@, span);
            lemma_concat_in_range(
                pats,
                annotation_diags(h, *func, span),
                annotations_diags(h, args@, span),
            );
        },
        ExprNode::Subscript(value, slice) => {
            lemma_annotation_in_range(pats, h, *value, span);
            lemma_annotation_in_range(pats, h, *slice, span);
            lemma_concat_in_range(
                pats,
                annotation_diags(h, *value, span),
                annotation_diags(h, *slice, span),
            );
        },
        ExprNode::Await(value) => lemma_annotation_in_range(pats, h, *value, span),
        ExprNode::Lambda(parts) => lemma_annotations_in_range(pats, h, parts@, span),
        ExprNode::Other(parts) => lemma_annotations_in_range(pats, h, parts@, span),
    }
    assert(patterns_in_range(pats, children));
    lemma_concat_in_range(pats, own, children);
}

proof fn lemma_annotations_in_range(pats: Seq<Pattern>, h: Hatches, es: Seq<Expr>, span: (u32, u32))
    ensures
        patterns_in_range(pats, annotations_diags(h, es, span)),
    decreases es, 0int,
{
    if es.len() > 0 {
        lemma_annotations_in_range(pats, h, es.drop_last(), span);
        lemma_annotation_in_range(pats, h, es.last(), span);
        lemma_concat_in_range(
            pats,
            annotations_diags(h, es.drop_last(), span),
            annotation_diags(h, es.last(), span),
        );
    }
}

proof fn lemma_scanned_all_in_range(pats: Seq<Pattern>, h: Hatches, anns: Seq<Expr>, span: (u32, u32))
    ensures
        patterns_in_range(pats, scanned_all(h, anns, span)),
    decreases anns.len(),
{
    if anns.len() > 0 {
        lemma_scanned_all_in_range(pats, h, anns.drop_last(), span);
        lemma_annotation_in_range(pats, h, anns.last(), span);
        lemma_concat_in_range(
            pats,
            scanned_all(h, anns.drop_last(), span),
            scanned_diags(h, anns.last(), span),
        );
    }
}

proof fn lemma_stmt_in_range(pats: Seq<Pattern>, h: Hatches, s: Stmt, in_async: bool)
    ensures
        patterns_in_range(pats, stmt_diags(pats, h, s, in_async)),
    decreases s, 1int,
{
    let span = Some((anchor(s), s.end));
    match s.node {
        StmtNode::FunctionDef { name_start, is_async, annotations, exprs, body, .. } => {
            let sig = signature_span(name_start, body@, s.end);
            lemma_scanned_all_in_range(pats, h, annotations@, sig);
            lemma_exprs_in_range(pats, h, annotations@, is_async, span);
            lemma_exprs_in_range(pats, h, exprs@, is_async, span);
            lemma_stmts_in_range(pats, h, body@, is_async);
            lemma_concat_in_range(
                pats,
                scanned_all(h, annotations@, sig),
                exprs_diags(pats, h, annotations@, is_async, span),
            );
            lemma_concat_in_range(
                pats,
                scanned_all(h, annotations@, sig) + exprs_diags(pats, h, annotations@, is_async, span),
                exprs_diags(pats, h, exprs@, is_async, span),
            );
            lemma_concat_in_range(
                pats,
                scanned_all(h, annotations@, sig) + exprs_diags(pats, h, annotations@, is_async, span)
                    + exprs_diags(pats, h, exprs@, is_async, span),
                stmts_diags(pats, h, body@, is_async),
            );
        },
        StmtNode::ClassDef { exprs, body, .. } => {
            lemma_exprs_in_range(pats, h, exprs@, in_async, span);
            lemma_stmts_in_range(pats, h, body@, in_async);
            lemma_concat_in_range(
                pats,
                exprs_diags(pats, h, exprs@, in_async, span),
                stmts_diags(pats, h, body@, in_async),
            );
        },
        StmtNode::AnnAssign { annotation, exprs } => {
            lemma_annotation_in_range(pats, h, annotation, (s.start, s.end));
            assert(patterns_in_range(pats, scanned_diags(h, annotation, (s.start, s.end))));
            lemma_expr_in_range(pats, h, annotation, in_async, span);
            lemma_exprs_in_range(pats, h, exprs@, in_async, span);
            lemma_concat_in_range(
                pats,
                scanned_diags(h, annotation, (s.start, s.end)),
                expr_diags(pats, h, annotation, in_async, span),
            );
            lemma_concat_in_range(
                pats,
                scanned_diags(h, annotation, (s.start, s.end)) + expr_diags(
                    pats,
                    h,
                    annotation,
                    in_async,
                    span,
                ),
                exprs_diags(pats, h, exprs@, in_async, span),
            );
        },
        StmtNode::If { test, body, clauses } => {
            lemma_expr_in_range(pats, h, test, in_async, span);
            lemma_stmts_in_range(pats, h, body@, in_async);
            lemma_clauses_in_range(pats, h, clauses@, in_async, s.end);
            lemma_concat_in_range(
                pats,
                expr_diags(pats, h, test, in_async, span),
                stmts_diags(pats, h, body@, in_async),
            );
            lemma_concat_in_range(
                pats,
                expr_diags(pats, h, test, in_async, span) + stmts_diags(pats, h, body@, in_async),
                clauses_diags(pats, h, clauses@, in_async, s.end),
            );
        },
        StmtNode::Other { exprs, body } => {
            lemma_exprs_in_range(pats, h, exprs@, in_async, span);
            lemma_stmts_in_range(pats, h, body@, in_async);
            lemma_concat_in_range(
                pats,
                exprs_diags(pats, h, exprs@, in_async, span),
                stmts_diags(pats, h, body@, in_async),
            );
        },
    }
}

/// Every ASYNC200 finding of a walk over `ss` names one of the patterns `pats`.
pub proof fn lemma_stmts_in_range(pats: Seq<Pattern>, h: Hatches, ss: Seq<Stmt>, in_async: bool)
    ensures
        patterns_in_range(pats, stmts_diags(pats, h, ss, in_async)),
    decreases ss, 0int,
{
    if ss.len() > 0 {
        lemma_stmts_in_range(pats, h, ss.drop_last(), in_async);
        lemma_stmt_in_range(pats, h, ss.last(), in_async);
        lemma_concat_in_range(
            pats,
            stmts_diags(pats, h, ss.drop_last(), in_async),
            stmt_diags(pats, h, ss.last(), in_async),
        );
    }
}

proof fn lemma_clause_in_range(pats: Seq<Pattern>, h: Hatches, c: ElifElse, in_async: bool, if_end: u32)
    ensures
        patterns_in_range(pats, clause_diags(pats, h, c, in_async, if_end)),
    decreases c, 1int,
{
    let test_diags = match c.test {
        Some(t) => expr_diags(pats, h, t, in_async, Some((c.start, if_end))),
        None => seq![],
    };
    if let Some(t) = c.test {
        lemma_expr_in_range(pats, h, t, in_async, Some((c.start, if_end)));
    }
    lemma_stmts_in_range(pats, h, c.body@, in_async);
    lemma_concat_in_range(pats, test_diags, stmts_diags(pats, h, c.body@, in_async));
}

proof fn lemma_clauses_in_range(
    pats: Seq<Pattern>,
    h: Hatches,
    cs: Seq<ElifElse>,
    in_async: bool,
    if_end: u32,
)
    ensures
        patterns_in_range(pats, clauses_diags(pats, h, cs, in_async, if_end)),
    decreases cs, 0int,
{
    if cs.len() > 0 {
        lemma_clauses_in_range(pats, h, cs.drop_last(), in_async, if_end);
        lemma_clause_in_range(pats, h, cs.last(), in_async, if_end);
        lemma_concat_in_range(
            pats,
            clauses_diags(pats, h, cs.drop_last(), in_async, if_end),
            clause_diags(pats, h, cs.last(), in_async, if_end),
        );
    }
}

/// The reported pattern is the first one that matches: it matches, and none
/// before it does; when none is reported, no pattern matches.
pub proof fn law_first_pattern_wins(pats: Seq<Pattern>, name: Seq<u8>)
    ensures
        first_match(pats, name) matches Some(k) ==> {
            &&& 0 <= k < pats.len()
            &&& glob_matches(pats[k].glob@, name)
            &&& forall|j: int| 0 <= j < k ==> !glob_matches(#[trigger] pats[j].glob@, name)
        },
        first_match(pats, name) is None ==> forall|j: int|
            0 <= j < pats.len() ==> !glob_matches(#[trigger] pats[j].glob@, name),
{
    lemma_first_match_from(pats, name, 0);
}

proof fn lemma_first_match_from(pats: Seq<Pattern>, name: Seq<u8>, i: int)
    requires
        0 <= i,
    ensures
        first_match_from(pats, name, i) matches Some(k) ==> {
            &&& i <= k < pats.len()
            &&& glob_matches(pats[k].glob@, name)
            &&& forall|j: int| i <= j < k ==> !glob_matches(#[trigger] pats[j].glob@, name)
        },
        first_match_from(pats, name, i) is None ==> forall|j: int|
            i <= j < pats.len() ==> !glob_matches(#[trigger] pats[j].glob@, name),
    decreases pats.len() - i,
{
    if i < pats.len() {
        lemma_first_match_from(pats, name, i + 1);
    }
}

proof fn lemma_stmt_in_stmts(pats: Seq<Pattern>, h: Hatches, ss: Seq<Stmt>, in_async: bool, j: int)
    requires
        0 <= j < ss.len(),
    ensures
        is_infix(stmt_diags(pats, h, ss[j], in_async), stmts_diags(pats, h, ss, in_async)),
    decreases ss.len(),
{
    let prev = stmts_diags(pats, h, ss.drop_last(), in_async);
    let last = stmt_diags(pats, h, ss.last(), in_async);
    lemma_infix_concat(prev, last, seq![]);
    assert(prev + last + seq![] =~= stmts_diags(pats, h, ss, in_async));
    if j < ss.len() - 1 {
        lemma_stmt_in_stmts(pats, h, ss.drop_last(), in_async, j);
        assert(ss.drop_last()[j] == ss[j]);
        lemma_infix_concat(seq![], prev, last);
        assert(seq![] + prev + last =~= stmts_diags(pats, h, ss, in_async));
        lemma_infix_trans(stmt_diags(pats, h, ss[j], in_async), prev, stmts_diags(pats, h, ss, in_async));
    }
}

proof fn lemma_clause_in_clauses(pats: Seq<Pattern>, h: Hatches, cs: Seq<ElifElse>, in_async: bool, if_end: u32, k: int)
    requires
        0 <= k < cs.len(),
    ensures
        is_infix(clause_diags(pats, h, cs[k], in_async, if_end), clauses_diags(pats, h, cs, in_async, if_end)),
    decreases cs.len(),
{
    let prev = clauses_diags(pats, h, cs.drop_last(), in_async, if_end);
    let last = clause_diags(pats, h, cs.last(), in_async, if_end);
    let all = clauses_diags(pats, h, cs, in_async, if_end);
    lemma_infix_concat(prev, last, seq![]);
    assert(prev + last + seq![] =~= all);
    if k < cs.len() - 1 {
        lemma_clause_in_clauses(pats, h, cs.drop_last(), in_async, if_end, k);
        assert(cs.drop_last()[k] == cs[k]);
        lemma_infix_concat(seq![], prev, last);
        assert(seq![] + prev + last =~= all);
        lemma_infix_trans(clause_diags(pats, h, cs[k], in_async, if_end), prev, all);
    }
}

/// An `if` statement is walked in all of its branches, in the async context it
/// stands in: its findings hold, each unbroken, those of every statement of
/// its body and of every statement of each `elif`/`else` clause body.
pub proof fn law_if_covers_every_branch(pats: Seq<Pattern>, h: Hatches, s: Stmt, in_async: bool)
    requires
        s.node is If,
    ensures
        forall|j: int|
            0 <= j < s.node->If_body@.len() ==> is_infix(
                stmt_diags(pats, h, #[trigger] s.node->If_body@[j], in_async),
                stmt_diags(pats, h, s, in_async),
            ),
        forall|k: int, j: int|
            0 <= k < s.node->If_clauses@.len() && 0 <= j < s.node->If_clauses@[k].body@.len()
                ==> is_infix(
                stmt_diags(pats, h, #[trigger] s.node->If_clauses@[k].body@[j], in_async),
                stmt_diags(pats, h, s, in_async),
            ),
{
    if let StmtNode::If { test, body, clauses } = s.node {
        let span = Some((anchor(s), s.end));
        let t = expr_diags(pats, h, test, in_async, span);
        let b = stmts_diags(pats, h, body@, in_async);
        let c = clauses_diags(pats, h, clauses@, in_async, s.end);
        let all = stmt_diags(pats, h, s, in_async);
        assert(all == t + b + c);
        lemma_infix_concat(t, b, c);
        lemma_infix_concat(t + b, c, seq![]);
        assert(t + b + c + seq![] =~= all);
        assert forall|j: int| 0 <= j < body@.len() implies is_infix(
            stmt_diags(pats, h, #[trigger] body@[j], in_async),
            all,
        ) by {
            lemma_stmt_in_stmts(pats, h, body@, in_async, j);
            lemma_infix_trans(stmt_diags(pats, h, body@[j], in_async), b, all);
        }
        assert forall|k: int, j: int|
            0 <= k < clauses@.len() && 0 <= j < clauses@[k].body@.len() implies is_infix(
            stmt_diags(pats, h, #[trigger] clauses@[k].body@[j], in_async),
            all,
        ) by {
            let cl = clauses@[k];
            let td = match cl.test {
                Some(x) => expr_diags(pats, h, x, in_async, Some((cl.start, s.end))),
                None => seq![],
            };
            let bd = stmts_diags(pats, h, cl.body@, in_async);
            assert(clause_diags(pats, h, cl, in_async, s.end) == td + bd);
            lemma_infix_concat(td, bd, seq![]);
            assert(td + bd + seq![] =~= td + bd);
            lemma_stmt_in_stmts(pats, h, cl.body@, in_async, j);
            lemma_infix_trans(stmt_diags(pats, h, cl.body@[j], in_async), bd, td + bd);
            lemma_clause_in_clauses(pats, h, clauses@, in_async, s.end, k);
            lemma_infix_trans(stmt_diags(pats, h, cl.body@[j], in_async), td + bd, c);
            lemma_infix_trans(stmt_diags(pats, h, cl.body@[j], in_async), c, all);
        }
    }
}

proof fn lemma_annotation_in_list(h: Hatches, es: Seq<Expr>, span: (u32, u32), k: int)
    requires
        0 <= k < es.len(),
    ensures
        is_infix(annotation_diags(h, es[k], span), annotations_diags(h, es, span)),
    decreases es.len(),
{
    let prev = annotations_diags(h, es.drop_last(), span);
    let last = annotation_diags(h, es.last(), span);
    let all = annotations_diags(h, es, span);
    lemma_infix_concat(prev, last, seq![]);
    assert(prev + last + seq![] =~= all);
    if k < es.len() - 1 {
        lemma_annotation_in_list(h, es.drop_last(), span, k);
        assert(es.drop_last()[k] == es[k]);
        lemma_infix_concat(seq![], prev, last);
        assert(seq![] + prev + last =~= all);
        lemma_infix_trans(annotation_diags(h, es[k], span), prev, all);
    }
}

/// The annotation scan reaches every sub-expression: the annotation findings
/// of each direct sub-expression of `e` stand, unbroken, among those of `e`.
pub proof fn law_annotation_scan_covers_children(h: Hatches, e: Expr, span: (u32, u32))
    ensures
        forall|k: int|
            0 <= k < children(e).len() ==> is_infix(
                annotation_diags(h, #[trigger] children(e)[k], span),
                annotation_diags(h, e, span),
            ),
{
    let own = one_if(
        h.no_any && spec_is_typing_any(e),
        Diag::Hatch { kind: HatchKind::AnyInAnnotation, offset: e.start, span_start: span.0, span_end: span.1 },
    ) + one_if(
        h.no_object && (e.node matches ExprNode::Name(n) && n@ == "object".spec_bytes()),
        Diag::Hatch { kind: HatchKind::ObjectInAnnotation, offset: e.start, span_start: span.0, span_end: span.1 },
    );
    let all = annotation_diags(h, e, span);
    assert forall|k: int| 0 <= k < children(e).len() implies is_infix(
        annotation_diags(h, #[trigger] children(e)[k], span),
        all,
    ) by {
        let c = children(e)[k];
        match e.node {
            ExprNode::Name(_) => {},
            ExprNode::Attribute(value, _) => {
                lemma_infix_concat(own, annotation_diags(h, *value, span), seq![]);
                assert(own + annotation_diags(h, *value, span) + seq![] =~= all);
            },
            ExprNode::Call(func, args) => {
                let f = annotation_diags(h, *func, span);
                let a = annotations_diags(h, args@, span);
                assert(all == own + (f + a));
                assert(own + (f + a) =~= own + f + a);
                if k == 0 {
                    lemma_infix_concat(own, f, a);
                } else {
                    assert(c == args@[k - 1]);
                    lemma_annotation_in_list(h, args@, span, k - 1);
                    lemma_infix_concat(own + f, a, seq![]);
                    assert(own + f + a + seq![] =~= own + f + a);
                    lemma_infix_trans(annotation_diags(h, c, span), a, all);
                }
            },
            ExprNode::Subscript(value, slice) => {
                let v = annotation_diags(h, *value, span);
                let sl = annotation_diags(h, *slice, span);
                assert(all == own + (v + sl));
                assert(own + (v + sl) =~= own + v + sl);
                if k == 0 {
                    lemma_infix_concat(own, v, sl);
                } else {
                    lemma_infix_concat(own + v, sl, seq![]);
                    assert(own + v + sl + seq![] =~= own + v + sl);
                }
            },
            ExprNode::Await(value) => {
                lemma_infix_concat(own, annotation_diags(h, *value, span), seq![]);
                assert(own + annotation_diags(h, *value, span) + seq![] =~= all);
            },
            ExprNode::Lambda(parts) => {
                let p = annotations_diags(h, parts@, span);
                lemma_annotation_in_list(h, parts@, span, k);
                lemma_infix_concat(own, p, seq![]);
                assert(own + p + seq![] =~= all);
                lemma_infix_trans(annotation_diags(h, c, span), p, all);
            },
            ExprNode::Other(parts) => {
                let p = annotations_diags(h, parts@, span);
                lemma_annotation_in_list(h, parts@, span, k);
                lemma_infix_concat(own, p, seq![]);
                assert(own + p + seq![] =~= all);
                lemma_infix_trans(annotation_diags(h, c, span), p, all);
            },
        }
    }
}

/// `d` is `e` or lies inside it, at most `n` sub-expression links down.
pub open spec fn descends(e: Expr, d: Expr, n: nat) -> bool
    decreases n,
{
    e == d || (n > 0 && exists|k: int|
        0 <= k < children(e).len() && descends(#[trigger] children(e)[k], d, (n - 1) as nat))
}

/// With no-any enabled, every `Any` anywhere inside an annotation is
/// reported at its own offset, with the annotation's span; likewise every
/// `object` with no-object enabled.
pub proof fn law_any_anywhere_in_annotation(h: Hatches, ann: Expr, d: Expr, n: nat, span: (u32, u32))
    requires
        descends(ann, d, n),
    ensures
        h.no_any && spec_is_typing_any(d) ==> annotation_diags(h, ann, span).contains(
            Diag::Hatch { kind: HatchKind::AnyInAnnotation, offset: d.start, span_start: span.0, span_end: span.1 },
        ),
        h.no_object && (d.node matches ExprNode::Name(x) && x@ == "object".spec_bytes())
            ==> annotation_diags(h, ann, span).contains(
            Diag::Hatch { kind: HatchKind::ObjectInAnnotation, offset: d.start, span_start: span.0, span_end: span.1 },
        ),
    decreases n,
{
    let any = Diag::Hatch { kind: HatchKind::AnyInAnnotation, offset: d.start, span_start: span.0, span_end: span.1 };
    let obj = Diag::Hatch { kind: HatchKind::ObjectInAnnotation, offset: d.start, span_start: span.0, span_end: span.1 };
    if ann == d {
        let all = annotation_diags(h, ann, span);
        if h.no_any && spec_is_typing_any(d) {
            assert(all[0] == any);
        }
        if h.no_object && (d.node matches ExprNode::Name(x) && x@ == "object".spec_bytes()) {
            let first = one_if(h.no_any && spec_is_typing_any(d), any);
            assert(all[first.len() as int] == obj);
        }
    } else {
        let k = choose|k: int| 0 <= k < children(ann).len() && descends(#[trigger] children(ann)[k], d, (n - 1) as nat);
        let c = children(ann)[k];
        law_any_anywhere_in_annotation(h, c, d, (n - 1) as nat, span);
        law_annotation_scan_covers_children(h, ann, span);
        if h.no_any && spec_is_typing_any(d) {
            lemma_infix_contains(annotation_diags(h, c, span), annotation_diags(h, ann, span), any);
        }
        if h.no_object && (d.node matches ExprNode::Name(x) && x@ == "object".spec_bytes()) {
            lemma_infix_contains(annotation_diags(h, c, span), annotation_diags(h, ann, span), obj);
        }
    }
}

proof fn lemma_expr_in_list(pats: Seq<Pattern>, h: Hatches, es: Seq<Expr>, in_async: bool, span: Option<(u32, u32)>, k: int)
    requires
        0 <= k < es.len(),
    ensures
        is_infix(expr_diags(pats, h, es[k], in_async, span), exprs_diags(pats, h, es, in_async, span)),
    decreases es.len(),
{
    let prev = exprs_diags(pats, h, es.drop_last(), in_async, span);
    let last = expr_diags(pats, h, es.last(), in_async, span);
    lemma_infix_right(prev, last);
    if k < es.len() - 1 {
        lemma_expr_in_list(pats, h, es.drop_last(), in_async, span, k);
        assert(es.drop_last()[k] == es[k]);
        lemma_infix_left(prev, last);
        lemma_infix_trans(expr_diags(pats, h, es[k], in_async, span), prev, prev + last);
    }
}

/// Walking an expression walks every one of its direct sub-expressions, in
/// the same context: each one's findings stand, unbroken, among the walk's.
pub proof fn law_walk_covers_children(pats: Seq<Pattern>, h: Hatches, e: Expr, in_async: bool, span: Option<(u32, u32)>)
    ensures
        forall|k: int|
            0 <= k < children(e).len() ==> is_infix(
                expr_diags(pats, h, #[trigger] children(e)[k], in_async, span),
                walk_diags(pats, h, e, in_async, span),
            ),
{
    let all = walk_diags(pats, h, e, in_async, span);
    assert forall|k: int| 0 <= k < children(e).len() implies is_infix(
        expr_diags(pats, h, #[trigger] children(e)[k], in_async, span),
        all,
    ) by {
        let c = children(e)[k];
        match e.node {
            ExprNode::Name(_) => {},
            ExprNode::Attribute(value, _) => lemma_infix_self(all),
            ExprNode::Call(func, args) => {
                let f = expr_diags(pats, h, *func, in_async, span);
                let a = exprs_diags(pats, h, args@, in_async, span);
                if k == 0 {
                    lemma_infix_left(f, a);
                } else {
                    assert(c == args@[k - 1]);
                    lemma_expr_in_list(pats, h, args@, in_async, span, k - 1);
                    lemma_infix_right(f, a);
                    lemma_infix_trans(expr_diags(pats, h, c, in_async, span), a, all);
                }
            },
            ExprNode::Subscript(value, slice) => {
                let v = expr_diags(pats, h, *value, in_async, span);
                let sl = expr_diags(pats, h, *slice, in_async, span);
                lemma_infix_left(v, sl);
                lemma_infix_right(v, sl);
            },
            ExprNode::Await(value) => lemma_infix_self(all),
            ExprNode::Lambda(parts) => lemma_expr_in_list(pats, h, parts@, in_async, span, k),
            ExprNode::Other(parts) => lemma_expr_in_list(pats, h, parts@, in_async, span, k),
        }
    }
}

/// Checking an expression checks every expression inside it: each direct
/// sub-expression's findings stand, unbroken, among the expression's, in the
/// same context, except that a `lambda` is walked outside the async context,
/// and that of a directly awaited call the callee and arguments are walked
/// (the call itself being exempt).
pub proof fn law_expr_covers_children(pats: Seq<Pattern>, h: Hatches, e: Expr, in_async: bool, span: Option<(u32, u32)>)
    ensures
        !(e.node is Lambda) && !(e.node is Await && e.node->Await_0.node is Call) ==> forall|k: int|
            0 <= k < children(e).len() ==> is_infix(
                expr_diags(pats, h, #[trigger] children(e)[k], in_async, span),
                expr_diags(pats, h, e, in_async, span),
            ),
        e.node is Lambda ==> forall|k: int|
            0 <= k < children(e).len() ==> is_infix(
                expr_diags(pats, h, #[trigger] children(e)[k], false, span),
                expr_diags(pats, h, e, in_async, span),
            ),
        e.node is Await && e.node->Await_0.node is Call ==> forall|k: int|
            0 <= k < children(*e.node->Await_0).len() ==> is_infix(
                expr_diags(pats, h, #[trigger] children(*e.node->Await_0)[k], in_async, span),
                expr_diags(pats, h, e, in_async, span),
            ),
{
    let all = expr_diags(pats, h, e, in_async, span);
    match e.node {
        ExprNode::Lambda(_) => {
            law_walk_covers_children(pats, h, e, false, span);
        },
        ExprNode::Await(value) => {
            if value.node is Call {
                law_walk_covers_children(pats, h, *value, in_async, span);
                let w = walk_diags(pats, h, *value, in_async, span);
                lemma_infix_right(call_diags(pats, h, *value, in_async, span, false), w);
                assert forall|k: int| 0 <= k < children(*value).len() implies is_infix(
                    expr_diags(pats, h, #[trigger] children(*value)[k], in_async, span),
                    all,
                ) by {
                    lemma_infix_trans(expr_diags(pats, h, children(*value)[k], in_async, span), w, all);
                }
            } else {
                law_walk_covers_children(pats, h, e, in_async, span);
            }
        },
        ExprNode::Call(_, _) => {
            law_walk_covers_children(pats, h, e, in_async, span);
            let w = walk_diags(pats, h, e, in_async, span);
            lemma_infix_right(call_diags(pats, h, e, in_async, span, true), w);
            assert forall|k: int| 0 <= k < children(e).len() implies is_infix(
                expr_diags(pats, h, #[trigger] children(e)[k], in_async, span),
                all,
            ) by {
                lemma_infix_trans(expr_diags(pats, h, children(e)[k], in_async, span), w, all);
            }
        },
        _ => {
            law_walk_covers_children(pats, h, e, in_async, span);
        },
    }
}

/// Checking a statement checks each of its parts, with the statement as the
/// span: a `def` its annotations, other expressions and body in its own async
/// context; a `class` and any other statement their expressions and body, an
/// annotated assignment its annotation and other expressions, and an `if` its
/// test and each `elif` test (with a span from the `elif` to the end of the
/// `if`), in the context they stand in.
pub proof fn law_stmt_covers_parts(pats: Seq<Pattern>, h: Hatches, s: Stmt, in_async: bool)
    ensures
        ({
            let all = stmt_diags(pats, h, s, in_async);
            let span = Some((anchor(s), s.end));
            match s.node {
                StmtNode::FunctionDef { is_async, annotations, exprs, body, .. } => {
                    &&& forall|j: int| 0 <= j < annotations@.len() ==> is_infix(
                        expr_diags(pats, h, #[trigger] annotations@[j], is_async, span),
                        all,
                    )
                    &&& forall|j: int| 0 <= j < exprs@.len() ==> is_infix(
                        expr_diags(pats, h, #[trigger] exprs@[j], is_async, span),
                        all,
                    )
                    &&& forall|j: int| 0 <= j < body@.len() ==> is_infix(
                        stmt_diags(pats, h, #[trigger] body@[j], is_async),
                        all,
                    )
                },
                StmtNode::ClassDef { exprs, body, .. } => {
                    &&& forall|j: int| 0 <= j < exprs@.len() ==> is_infix(
                        expr_diags(pats, h, #[trigger] exprs@[j], in_async, span),
                        all,
                    )
                    &&& forall|j: int| 0 <= j < body@.len() ==> is_infix(
                        stmt_diags(pats, h, #[trigger] body@[j], in_async),
                        all,
                    )
                },
                StmtNode::AnnAssign { annotation, exprs } => {
                    &&& is_infix(expr_diags(pats, h, annotation, in_async, span), all)
                    &&& forall|j: int| 0 <= j < exprs@.len() ==> is_infix(
                        expr_diags(pats, h, #[trigger] exprs@[j], in_async, span),
                        all,
                    )
                },
                StmtNode::If { test, clauses, .. } => {
                    &&& is_infix(expr_diags(pats, h, test, in_async, span), all)
                    &&& forall|k: int| 0 <= k < clauses@.len() && (#[trigger] clauses@[k]).test is Some
                        ==> is_infix(
                        expr_diags(pats, h, clauses@[k].test->0, in_async, Some((clauses@[k].start, s.end))),
                        all,
                    )
                },
                StmtNode::Other { exprs, body } => {
                    &&& forall|j: int| 0 <= j < exprs@.len() ==> is_infix(
                        expr_diags(pats, h, #[trigger] exprs@[j], in_async, span),
                        all,
                    )
                    &&& forall|j: int| 0 <= j < body@.len() ==> is_infix(
                        stmt_diags(pats, h, #[trigger] body@[j], in_async),
                        all,
                    )
                },
            }
        }),
{
    let all = stmt_diags(pats, h, s, in_async);
    let span = Some((anchor(s), s.end));
    match s.node {
        StmtNode::FunctionDef { name_start, is_async, annotations, exprs, body, .. } => {
            let a = scanned_all(h, annotations@, signature_span(name_start, body@, s.end));
            let b = exprs_diags(pats, h, annotations@, is_async, span);
            let c = exprs_diags(pats, h, exprs@, is_async, span);
            let d = stmts_diags(pats, h, body@, is_async);
            lemma_infix_in4(a, b, c, d);
            assert forall|j: int| 0 <= j < annotations@.len() implies is_infix(
                expr_diags(pats, h, #[trigger] annotations@[j], is_async, span),
                all,
            ) by {
                lemma_expr_in_list(pats, h, annotations@, is_async, span, j);
                lemma_infix_trans(expr_diags(pats, h, annotations@[j], is_async, span), b, all);
            }
            assert forall|j: int| 0 <= j < exprs@.len() implies is_infix(
                expr_diags(pats, h, #[trigger] exprs@[j], is_async, span),
                all,
            ) by {
                lemma_expr_in_list(pats, h, exprs@, is_async, span, j);
                lemma_infix_trans(expr_diags(pats, h, exprs@[j], is_async, span), c, all);
            }
            assert forall|j: int| 0 <= j < body@.len() implies is_infix(
                stmt_diags(pats, h, #[trigger] body@[j], is_async),
                all,
            ) by {
                lemma_stmt_in_stmts(pats, h, body@, is_async, j);
                lemma_infix_trans(stmt_diags(pats, h, body@[j], is_async), d, all);
            }
        },
        StmtNode::ClassDef { exprs, body, .. } => {
            let c = exprs_diags(pats, h, exprs@, in_async, span);
            let d = stmts_diags(pats, h, body@, in_async);
            lemma_infix_left(c, d);
            lemma_infix_right(c, d);
            assert forall|j: int| 0 <= j < exprs@.len() implies is_infix(
                expr_diags(pats, h, #[trigger] exprs@[j], in_async, span),
                all,
            ) by {
                lemma_expr_in_list(pats, h, exprs@, in_async, span, j);
                lemma_infix_trans(expr_diags(pats, h, exprs@[j], in_async, span), c, all);
            }
            assert forall|j: int| 0 <= j < body@.len() implies is_infix(
                stmt_diags(pats, h, #[trigger] body@[j], in_async),
                all,
            ) by {
                lemma_stmt_in_stmts(pats, h, body@, in_async, j);
                lemma_infix_trans(stmt_diags(pats, h, body@[j], in_async), d, all);
            }
        },
        StmtNode::AnnAssign { annotation, exprs } => {
            let a = scanned_diags(h, annotation, (s.start, s.end));
            let b = expr_diags(pats, h, annotation, in_async, span);
            let c = exprs_diags(pats, h, exprs@, in_async, span);
            lemma_infix_in3(a, b, c);
            assert forall|j: int| 0 <= j < exprs@.len() implies is_infix(
                expr_diags(pats, h, #[trigger] exprs@[j], in_async, span),
                all,
            ) by {
                lemma_expr_in_list(pats, h, exprs@, in_async, span, j);
                lemma_infix_trans(expr_diags(pats, h, exprs@[j], in_async, span), c, all);
            }
        },
        StmtNode::If { test, body, clauses } => {
            let t = expr_diags(pats, h, test, in_async, span);
            let b = stmts_diags(pats, h, body@, in_async);
            let c = clauses_diags(pats, h, clauses@, in_async, s.end);
            lemma_infix_in3(t, b, c);
            assert forall|k: int| 0 <= k < clauses@.len() && (#[trigger] clauses@[k]).test is Some
                implies is_infix(
                expr_diags(pats, h, clauses@[k].test->0, in_async, Some((clauses@[k].start, s.end))),
                all,
            ) by {
                let cl = clauses@[k];
                let td = expr_diags(pats, h, cl.test->0, in_async, Some((cl.start, s.end)));
                let bd = stmts_diags(pats, h, cl.body@, in_async);
                assert(clause_diags(pats, h, cl, in_async, s.end) == td + bd);
                lemma_infix_left(td, bd);
                lemma_clause_in_clauses(pats, h, clauses@, in_async, s.end, k);
                lemma_infix_trans(td, td + bd, c);
                lemma_infix_trans(td, c, all);
            }
        },
        StmtNode::Other { exprs, body } => {
            let c = exprs_diags(pats, h, exprs@, in_async, span);
            let d = stmts_diags(pats, h, body@, in_async);
            lemma_infix_left(c, d);
            lemma_infix_right(c, d);
            assert forall|j: int| 0 <= j < exprs@.len() implies is_infix(
                expr_diags(pats, h, #[trigger] exprs@[j], in_async, span),
                all,
            ) by {
                lemma_expr_in_list(pats, h, exprs@, in_async, span, j);
                lemma_infix_trans(expr_diags(pats, h, exprs@[j], in_async, span), c, all);
            }
            assert forall|j: int| 0 <= j < body@.len() implies is_infix(
                stmt_diags(pats, h, #[trigger] body@[j], in_async),
                all,
            ) by {
                lemma_stmt_in_stmts(pats, h, body@, in_async, j);
                lemma_infix_trans(stmt_diags(pats, h, body@[j], in_async), d, all);
            }
        },
    }
}

/// A call that is not directly awaited, in an async context, whose callee's
/// text a pattern matches, is reported at the call with the first pattern that
/// matches.
pub proof fn law_blocking_call_is_reported(pats: Seq<Pattern>, h: Hatches, e: Expr, span: Option<(u32, u32)>)
    requires
        e.node is Call,
        first_match(pats, unparsed(*e.node->Call_0)) is Some,
    ensures
        expr_diags(pats, h, e, true, span).contains(
            Diag::Async200 {
                offset: e.start,
                pattern_idx: first_match(pats, unparsed(*e.node->Call_0))->0 as usize,
            },
        ),
{
    let b = banned_call_diags(h, e, span);
    let k = blocking_call_diags(pats, e, true);
    let w = walk_diags(pats, h, e, true, span);
    let all = expr_diags(pats, h, e, true, span);
    assert(all == b + k + w);
    lemma_infix_in3(b, k, w);
    let d = Diag::Async200 {
        offset: e.start,
        pattern_idx: first_match(pats, unparsed(*e.node->Call_0))->0 as usize,
    };
    assert(k[0] == d);
    lemma_infix_contains(k, all, d);
}

/// With no-getattr on, a bare `getattr(...)` or `hasattr(...)` call is
/// reported at the call, in any context, with the enclosing statement (or
/// the call itself) as span.
pub proof fn law_banned_call_is_reported(
    pats: Seq<Pattern>,
    h: Hatches,
    e: Expr,
    in_async: bool,
    span: Option<(u32, u32)>,
    name: Seq<u8>,
)
    requires
        h.no_getattr,
        e.node is Call,
        e.node->Call_0.node matches ExprNode::Name(n) && n@ == name,
        name == "getattr".spec_bytes() || name == "hasattr".spec_bytes(),
    ensures
        ({
            let (ss, se) = match span {
                Some(x) => x,
                None => (e.start, e.end),
            };
            let kind = if name == "getattr".spec_bytes() {
                HatchKind::GetattrCall
            } else {
                HatchKind::HasattrCall
            };
            expr_diags(pats, h, e, in_async, span).contains(
                Diag::Hatch { kind, offset: e.start, span_start: ss, span_end: se },
            )
        }),
{
    let b = banned_call_diags(h, e, span);
    let k = blocking_call_diags(pats, e, in_async);
    let w = walk_diags(pats, h, e, in_async, span);
    let all = expr_diags(pats, h, e, in_async, span);
    assert(all == b + k + w);
    lemma_infix_in3(b, k, w);
    assert(b.len() == 1);
    lemma_infix_contains(b, all, b[0]);
}

} // verus!
