//! The two families of rules share one walk and do not affect each other:
//! with both enabled, the ASYNC200 findings are those of ASYNC200 alone and
//! the type escape hatch findings are those of the hatch rules alone.
use vstd::prelude::*;
use crate::ast::{unparsed, Expr, ExprNode, Stmt, StmtNode, ElifElse};
use crate::checker::{
    annotation_diags, annotations_diags, anchor, banned_call_diags, blocking_call_diags,
    call_diags, clause_diags, clauses_diags, expr_diags, exprs_diags, first_match, one_if,
    scanned_all, scanned_diags, signature_span, stmt_diags, stmts_diags, walk_diags, Diag,
    HatchKind, Hatches, Pattern,
};

verus! {

/// The ASYNC200 findings of `ds`, in order.
pub open spec fn async200_part(ds: Seq<Diag>) -> Seq<Diag>
    decreases ds.len(),
{
    if ds.len() == 0 {
        seq![]
    } else {
        async200_part(ds.drop_last()) + if ds.last() is Async200 {
            seq![ds.last()]
        } else {
            seq![]
        }
    }
}

/// The type escape hatch findings of `ds`, in order.
pub open spec fn hatch_part(ds: Seq<Diag>) -> Seq<Diag>
    decreases ds.len(),
{
    if ds.len() == 0 {
        seq![]
    } else {
        hatch_part(ds.drop_last()) + if ds.last() is Hatch {
            seq![ds.last()]
        } else {
            seq![]
        }
    }
}

/// No type escape hatch rule enabled.
pub open spec fn no_hatches() -> Hatches {
    Hatches { no_any: false, no_getattr: false, no_object: false }
}

proof fn lemma_parts_add(a: Seq<Diag>, b: Seq<Diag>)
    ensures
        async200_part(a + b) == async200_part(a) + async200_part(b),
        hatch_part(a + b) == hatch_part(a) + hatch_part(b),
    decreases b.len(),
{
    if b.len() == 0 {
        assert(a + b =~= a);
        assert(async200_part(a) + async200_part(b) =~= async200_part(a));
        assert(hatch_part(a) + hatch_part(b) =~= hatch_part(a));
    } else {
        lemma_parts_add(a, b.drop_last());
        assert((a + b).drop_last() =~= a + b.drop_last());
        assert((a + b).last() == b.last());
        assert(async200_part(a + b) =~= async200_part(a) + async200_part(b));
        assert(hatch_part(a + b) =~= hatch_part(a) + hatch_part(b));
    }
}

proof fn lemma_parts_one(d: Diag)
    ensures
        async200_part(seq![d]) == if d is Async200 {
            seq![d]
        } else {
            seq![]
        },
        hatch_part(seq![d]) == if d is Hatch {
            seq![d]
        } else {
            seq![]
        },
{
    assert(seq![d].drop_last() =~= Seq::<Diag>::empty());
    assert(async200_part(Seq::<Diag>::empty()) =~= Seq::<Diag>::empty());
    assert(hatch_part(Seq::<Diag>::empty()) =~= Seq::<Diag>::empty());
    assert(seq![d].last() == d);
    assert(async200_part(seq![d]) =~= (if d is Async200 {
        seq![d]
    } else {
        seq![]
    }));
    assert(hatch_part(seq![d]) =~= (if d is Hatch {
        seq![d]
    } else {
        seq![]
    }));
}

/// `ds` holds type escape hatch findings only.
pub open spec fn all_hatches(ds: Seq<Diag>) -> bool {
    async200_part(ds) == Seq::<Diag>::empty() && hatch_part(ds) == ds
}

proof fn lemma_all_hatches_add(a: Seq<Diag>, b: Seq<Diag>)
    requires
        all_hatches(a),
        all_hatches(b),
    ensures
        all_hatches(a + b),
{
    lemma_parts_add(a, b);
    assert(Seq::<Diag>::empty() + Seq::<Diag>::empty() =~= Seq::<Diag>::empty());
}

proof fn lemma_one_if_hatch(c: bool, d: Diag)
    requires
        d is Hatch,
    ensures
        all_hatches(one_if(c, d)),
{
    if c {
        lemma_parts_one(d);
    }
}

proof fn lemma_annotation_hatches(h: Hatches, e: Expr, span: (u32, u32))
    ensures
        all_hatches(annotation_diags(h, e, span)),
    decreases e, 1int,
{
    let d1 = Diag::Hatch { kind: HatchKind::AnyInAnnotation, offset: e.start, span_start: span.0, span_end: span.1 };
    let d2 = Diag::Hatch { kind: HatchKind::ObjectInAnnotation, offset: e.start, span_start: span.0, span_end: span.1 };
    let c1 = h.no_any && crate::ast::spec_is_typing_any(e);
    let c2 = h.no_object && (e.node matches ExprNode::Name(n) && n@ == vstd::string::StringSliceAdditionalSpecFns::spec_bytes("object"));
    lemma_one_if_hatch(c1, d1);
    lemma_one_if_hatch(c2, d2);
    lemma_all_hatches_add(one_if(c1, d1), one_if(c2, d2));
    let children = match e.node {
        ExprNode::Name(_) => seq![],
        ExprNode::Attribute(value, _) => annotation_diags(h, *value, span),
        ExprNode::Call(func, args) => annotation_diags(h, *func, span) + annotations_diags(
            h,
            args@,
            span,
        ),
        ExprNode::Subscript(value, slice) => annotation_diags(h, *value, span) + annotation_diags(
            h,
            *slice,
            span,
        ),
        ExprNode::Await(value) => annotation_diags(h, *value, span),
        ExprNode::Lambda(parts) => annotations_diags(h, parts@, span),
        ExprNode::Other(parts) => annotations_diags(h, parts@, span),
    };
    match e.node {
        ExprNode::Name(_) => {
            assert(async200_part(Seq::<Diag>::empty()) =~= Seq::<Diag>::empty());
            assert(hatch_part(Seq::<Diag>::empty()) =~= Seq::<Diag>::empty());
        },
        ExprNode::Attribute(value, _) => lemma_annotation_hatches(h, *value, span),
        ExprNode::Call(func, args) => {
            lemma_annotation_hatches(h, *func, span);
            lemma_annotations_hatches(h, args@, span);
            lemma_all_hatches_add(annotation_diags(h, *func, span), annotations_diags(h, args@, span));
        },
        ExprNode::Subscript(value, slice) => {
            lemma_annotation_hatches(h, *value, span);
            lemma_annotation_hatches(h, *slice, span);
            lemma_all_hatches_add(annotation_diags(h, *value, span), annotation_diags(h, *slice, span));
        },
        ExprNode::Await(value) => lemma_annotation_hatches(h, *value, span),
        ExprNode::Lambda(parts) => lemma_annotations_hatches(h, parts@, span),
        ExprNode::Other(parts) => lemma_annotations_hatches(h, parts@, span),
    }
    lemma_all_hatches_add(one_if(c1, d1) + one_if(c2, d2), children);
}

proof fn lemma_annotations_hatches(h: Hatches, es: Seq<Expr>, span: (u32, u32))
    ensures
        all_hatches(annotations_diags(h, es, span)),
    decreases es, 0int,
{
    if es.len() == 0 {
        assert(async200_part(Seq::<Diag>::empty()) =~= Seq::<Diag>::empty());
        assert(hatch_part(Seq::<Diag>::empty()) =~= Seq::<Diag>::empty());
    } else {
        lemma_annotations_hatches(h, es.drop_last(), span);
        lemma_annotation_hatches(h, es.last(), span);
        lemma_all_hatches_add(annotations_diags(h, es.drop_last(), span), annotation_diags(h, es.last(), span));
    }
}

proof fn lemma_scanned_all(h: Hatches, anns: Seq<Expr>, span: (u32, u32))
    ensures
        all_hatches(scanned_all(h, anns, span)),
        scanned_all(no_hatches(), anns, span) == Seq::<Diag>::empty(),
    decreases anns.len(),
{
    if anns.len() == 0 {
        assert(async200_part(Seq::<Diag>::empty()) =~= Seq::<Diag>::empty());
        assert(hatch_part(Seq::<Diag>::empty()) =~= Seq::<Diag>::empty());
    } else {
        lemma_scanned_all(h, anns.drop_last(), span);
        lemma_annotation_hatches(h, anns.last(), span);
        assert(all_hatches(scanned_diags(h, anns.last(), span))) by {
            if !(h.no_any || h.no_object) {
                assert(async200_part(Seq::<Diag>::empty()) =~= Seq::<Diag>::empty());
                assert(hatch_part(Seq::<Diag>::empty()) =~= Seq::<Diag>::empty());
            }
        }
        lemma_all_hatches_add(scanned_all(h, anns.drop_last(), span), scanned_diags(h, anns.last(), span));
        assert(scanned_all(no_hatches(), anns, span) =~= Seq::<Diag>::empty());
    }
}

/// `ds` with both rule families splits into `with_patterns` (the ASYNC200
/// findings) and `with_hatches` (the type escape hatch findings).
pub open spec fn splits(ds: Seq<Diag>, with_patterns: Seq<Diag>, with_hatches: Seq<Diag>) -> bool {
    async200_part(ds) == with_patterns && hatch_part(ds) == with_hatches
}

proof fn lemma_splits_add(
    a: Seq<Diag>,
    a1: Seq<Diag>,
    a2: Seq<Diag>,
    b: Seq<Diag>,
    b1: Seq<Diag>,
    b2: Seq<Diag>,
)
    requires
        splits(a, a1, a2),
        splits(b, b1, b2),
    ensures
        splits(a + b, a1 + b1, a2 + b2),
{
    lemma_parts_add(a, b);
}

proof fn lemma_call_split(
    pats: Seq<Pattern>,
    h: Hatches,
    call: Expr,
    in_async: bool,
    span: Option<(u32, u32)>,
    check: bool,
)
    ensures
        splits(
            call_diags(pats, h, call, in_async, span, check),
            call_diags(pats, no_hatches(), call, in_async, span, check),
            call_diags(seq![], h, call, in_async, span, check),
        ),
{
    let banned = banned_call_diags(h, call, span);
    let blocking = if check {
        blocking_call_diags(pats, call, in_async)
    } else {
        seq![]
    };
    assert(banned_call_diags(no_hatches(), call, span) =~= Seq::<Diag>::empty());
    if let ExprNode::Call(func, _) = call.node {
        assert(first_match(seq![], unparsed(*func)) is None);
    }
    assert(blocking_call_diags(seq![], call, in_async) =~= Seq::<Diag>::empty());
    if banned.len() == 1 {
        lemma_parts_one(banned[0]);
        assert(banned =~= seq![banned[0]]);
    } else {
        assert(banned =~= Seq::<Diag>::empty());
    }
    assert(async200_part(Seq::<Diag>::empty()) =~= Seq::<Diag>::empty());
    assert(hatch_part(Seq::<Diag>::empty()) =~= Seq::<Diag>::empty());
    if blocking.len() == 1 {
        lemma_parts_one(blocking[0]);
        assert(blocking =~= seq![blocking[0]]);
    } else {
        assert(blocking =~= Seq::<Diag>::empty());
    }
    lemma_parts_add(banned, blocking);
    assert(Seq::<Diag>::empty() + blocking =~= blocking);
    assert(banned + Seq::<Diag>::empty() =~= banned);
}

proof fn lemma_expr_split(pats: Seq<Pattern>, h: Hatches, e: Expr, a: bool, span: Option<(u32, u32)>)
    ensures
        splits(
            expr_diags(pats, h, e, a, span),
            expr_diags(pats, no_hatches(), e, a, span),
            expr_diags(seq![], h, e, a, span),
        ),
    decreases e, 1int,
{
    match e.node {
        ExprNode::Lambda(_) => lemma_walk_split(pats, h, e, false, span),
        ExprNode::Await(value) => match value.node {
            ExprNode::Call(_, _) => {
                lemma_call_split(pats, h, *value, a, span, false);
                lemma_walk_split(pats, h, *value, a, span);
                lemma_splits_add(
                    call_diags(pats, h, *value, a, span, false),
                    call_diags(pats, no_hatches(), *value, a, span, false),
                    call_diags(seq![], h, *value, a, span, false),
                    walk_diags(pats, h, *value, a, span),
                    walk_diags(pats, no_hatches(), *value, a, span),
                    walk_diags(seq![], h, *value, a, span),
                );
            },
            _ => lemma_walk_split(pats, h, e, a, span),
        },
        ExprNode::Call(_, _) => {
            lemma_call_split(pats, h, e, a, span, true);
            lemma_walk_split(pats, h, e, a, span);
            lemma_splits_add(
                call_diags(pats, h, e, a, span, true),
                call_diags(pats, no_hatches(), e, a, span, true),
                call_diags(seq![], h, e, a, span, true),
                walk_diags(pats, h, e, a, span),
                walk_diags(pats, no_hatches(), e, a, span),
                walk_diags(seq![], h, e, a, span),
            );
        },
        _ => lemma_walk_split(pats, h, e, a, span),
    }
}

proof fn lemma_walk_split(pats: Seq<Pattern>, h: Hatches, e: Expr, a: bool, span: Option<(u32, u32)>)
    ensures
        splits(
            walk_diags(pats, h, e, a, span),
            walk_diags(pats, no_hatches(), e, a, span),
            walk_diags(seq![], h, e, a, span),
        ),
    decreases e, 0int,
{
    match e.node {
        ExprNode::Name(_) => {
            assert(async200_part(Seq::<Diag>::empty()) =~= Seq::<Diag>::empty());
            assert(hatch_part(Seq::<Diag>::empty()) =~= Seq::<Diag>::empty());
        },
        ExprNode::Attribute(value, _) => lemma_expr_split(pats, h, *value, a, span),
        ExprNode::Call(func, args) => {
            lemma_expr_split(pats, h, *func, a, span);
            lemma_exprs_split(pats, h, args@, a, span);
            lemma_splits_add(
                expr_diags(pats, h, *func, a, span),
                expr_diags(pats, no_hatches(), *func, a, span),
                expr_diags(seq![], h, *func, a, span),
                exprs_diags(pats, h, args@, a, span),
                exprs_diags(pats, no_hatches(), args@, a, span),
                exprs_diags(seq![], h, args@, a, span),
            );
        },
        ExprNode::Subscript(value, slice) => {
            lemma_expr_split(pats, h, *value, a, span);
            lemma_expr_split(pats, h, *slice, a, span);
            lemma_splits_add(
                expr_diags(pats, h, *value, a, span),
                expr_diags(pats, no_hatches(), *value, a, span),
                expr_diags(seq![], h, *value, a, span),
                expr_diags(pats, h, *slice, a, span),
                expr_diags(pats, no_hatches(), *slice, a, span),
                expr_diags(seq![], h, *slice, a, span),
            );
        },
        ExprNode::Await(value) => lemma_expr_split(pats, h, *value, a, span),
        ExprNode::Lambda(parts) => lemma_exprs_split(pats, h, parts@, a, span),
        ExprNode::Other(parts) => lemma_exprs_split(pats, h, parts@, a, span),
    }
}

proof fn lemma_exprs_split(
    pats: Seq<Pattern>,
    h: Hatches,
    es: Seq<Expr>,
    a: bool,
    span: Option<(u32, u32)>,
)
    ensures
        splits(
            exprs_diags(pats, h, es, a, span),
            exprs_diags(pats, no_hatches(), es, a, span),
            exprs_diags(seq![], h, es, a, span),
        ),
    decreases es, 0int,
{
    if es.len() == 0 {
        assert(async200_part(Seq::<Diag>::empty()) =~= Seq::<Diag>::empty());
        assert(hatch_part(Seq::<Diag>::empty()) =~= Seq::<Diag>::empty());
    } else {
        lemma_exprs_split(pats, h, es.drop_last(), a, span);
        lemma_expr_split(pats, h, es.last(), a, span);
        lemma_splits_add(
            exprs_diags(pats, h, es.drop_last(), a, span),
            exprs_diags(pats, no_hatches(), es.drop_last(), a, span),
            exprs_diags(seq![], h, es.drop_last(), a, span),
            expr_diags(pats, h, es.last(), a, span),
            expr_diags(pats, no_hatches(), es.last(), a, span),
            expr_diags(seq![], h, es.last(), a, span),
        );
    }
}

proof fn lemma_scanned_split(h: Hatches, ann: Expr, span: (u32, u32))
    ensures
        splits(scanned_diags(h, ann, span), scanned_diags(no_hatches(), ann, span), scanned_diags(h, ann, span)),
{
    lemma_annotation_hatches(h, ann, span);
    assert(async200_part(Seq::<Diag>::empty()) =~= Seq::<Diag>::empty());
    assert(hatch_part(Seq::<Diag>::empty()) =~= Seq::<Diag>::empty());
}

proof fn lemma_stmt_split(pats: Seq<Pattern>, h: Hatches, s: Stmt, a: bool)
    ensures
        splits(
            stmt_diags(pats, h, s, a),
            stmt_diags(pats, no_hatches(), s, a),
            stmt_diags(seq![], h, s, a),
        ),
    decreases s, 1int,
{
    let span = Some((anchor(s), s.end));
    let n = no_hatches();
    let e: Seq<Pattern> = seq![];
    match s.node {
        StmtNode::FunctionDef { name_start, is_async, annotations, exprs, body, .. } => {
            let sig = signature_span(name_start, body@, s.end);
            lemma_scanned_all(h, annotations@, sig);
            lemma_exprs_split(pats, h, annotations@, is_async, span);
            lemma_exprs_split(pats, h, exprs@, is_async, span);
            lemma_stmts_split(pats, h, body@, is_async);
            lemma_splits_add(
                scanned_all(h, annotations@, sig),
                scanned_all(n, annotations@, sig),
                scanned_all(h, annotations@, sig),
                exprs_diags(pats, h, annotations@, is_async, span),
                exprs_diags(pats, n, annotations@, is_async, span),
                exprs_diags(e, h, annotations@, is_async, span),
            );
            lemma_splits_add(
                scanned_all(h, annotations@, sig) + exprs_diags(pats, h, annotations@, is_async, span),
                scanned_all(n, annotations@, sig) + exprs_diags(pats, n, annotations@, is_async, span),
                scanned_all(h, annotations@, sig) + exprs_diags(e, h, annotations@, is_async, span),
                exprs_diags(pats, h, exprs@, is_async, span),
                exprs_diags(pats, n, exprs@, is_async, span),
                exprs_diags(e, h, exprs@, is_async, span),
            );
            lemma_splits_add(
                scanned_all(h, annotations@, sig) + exprs_diags(pats, h, annotations@, is_async, span)
                    + exprs_diags(pats, h, exprs@, is_async, span),
                scanned_all(n, annotations@, sig) + exprs_diags(pats, n, annotations@, is_async, span)
                    + exprs_diags(pats, n, exprs@, is_async, span),
                scanned_all(h, annotations@, sig) + exprs_diags(e, h, annotations@, is_async, span)
                    + exprs_diags(e, h, exprs@, is_async, span),
                stmts_diags(pats, h, body@, is_async),
                stmts_diags(pats, n, body@, is_async),
                stmts_diags(e, h, body@, is_async),
            );
        },
        StmtNode::ClassDef { exprs, body, .. } => {
            lemma_exprs_split(pats, h, exprs@, a, span);
            lemma_stmts_split(pats, h, body@, a);
            lemma_splits_add(
                exprs_diags(pats, h, exprs@, a, span),
                exprs_diags(pats, n, exprs@, a, span),
                exprs_diags(e, h, exprs@, a, span),
                stmts_diags(pats, h, body@, a),
                stmts_diags(pats, n, body@, a),
                stmts_diags(e, h, body@, a),
            );
        },
        StmtNode::AnnAssign { annotation, exprs } => {
            let sp = (s.start, s.end);
            lemma_scanned_split(h, annotation, sp);
            lemma_expr_split(pats, h, annotation, a, span);
            lemma_exprs_split(pats, h, exprs@, a, span);
            lemma_splits_add(
                scanned_diags(h, annotation, sp),
                scanned_diags(n, annotation, sp),
                scanned_diags(h, annotation, sp),
                expr_diags(pats, h, annotation, a, span),
                expr_diags(pats, n, annotation, a, span),
                expr_diags(e, h, annotation, a, span),
            );
            lemma_splits_add(
                scanned_diags(h, annotation, sp) + expr_diags(pats, h, annotation, a, span),
                scanned_diags(n, annotation, sp) + expr_diags(pats, n, annotation, a, span),
                scanned_diags(h, annotation, sp) + expr_diags(e, h, annotation, a, span),
                exprs_diags(pats, h, exprs@, a, span),
                exprs_diags(pats, n, exprs@, a, span),
                exprs_diags(e, h, exprs@, a, span),
            );
        },
        StmtNode::If { test, body, clauses } => {
            lemma_expr_split(pats, h, test, a, span);
            lemma_stmts_split(pats, h, body@, a);
            lemma_clauses_split(pats, h, clauses@, a, s.end);
            lemma_splits_add(
                expr_diags(pats, h, test, a, span),
                expr_diags(pats, n, test, a, span),
                expr_diags(e, h, test, a, span),
                stmts_diags(pats, h, body@, a),
                stmts_diags(pats, n, body@, a),
                stmts_diags(e, h, body@, a),
            );
            lemma_splits_add(
                expr_diags(pats, h, test, a, span) + stmts_diags(pats, h, body@, a),
                expr_diags(pats, n, test, a, span) + stmts_diags(pats, n, body@, a),
                expr_diags(e, h, test, a, span) + stmts_diags(e, h, body@, a),
                clauses_diags(pats, h, clauses@, a, s.end),
                clauses_diags(pats, n, clauses@, a, s.end),
                clauses_diags(e, h, clauses@, a, s.end),
            );
        },
        StmtNode::Other { exprs, body } => {
            lemma_exprs_split(pats, h, exprs@, a, span);
            lemma_stmts_split(pats, h, body@, a);
            lemma_splits_add(
                exprs_diags(pats, h, exprs@, a, span),
                exprs_diags(pats, n, exprs@, a, span),
                exprs_diags(e, h, exprs@, a, span),
                stmts_diags(pats, h, body@, a),
                stmts_diags(pats, n, body@, a),
                stmts_diags(e, h, body@, a),
            );
        },
    }
}

proof fn lemma_stmts_split(pats: Seq<Pattern>, h: Hatches, ss: Seq<Stmt>, a: bool)
    ensures
        splits(
            stmts_diags(pats, h, ss, a),
            stmts_diags(pats, no_hatches(), ss, a),
            stmts_diags(seq![], h, ss, a),
        ),
    decreases ss, 0int,
{
    if ss.len() == 0 {
        assert(async200_part(Seq::<Diag>::empty()) =~= Seq::<Diag>::empty());
        assert(hatch_part(Seq::<Diag>::empty()) =~= Seq::<Diag>::empty());
    } else {
        lemma_stmts_split(pats, h, ss.drop_last(), a);
        lemma_stmt_split(pats, h, ss.last(), a);
        lemma_splits_add(
            stmts_diags(pats, h, ss.drop_last(), a),
            stmts_diags(pats, no_hatches(), ss.drop_last(), a),
            stmts_diags(seq![], h, ss.drop_last(), a),
            stmt_diags(pats, h, ss.last(), a),
            stmt_diags(pats, no_hatches(), ss.last(), a),
            stmt_diags(seq![], h, ss.last(), a),
        );
    }
}

proof fn lemma_clause_split(pats: Seq<Pattern>, h: Hatches, c: ElifElse, a: bool, if_end: u32)
    ensures
        splits(
            clause_diags(pats, h, c, a, if_end),
            clause_diags(pats, no_hatches(), c, a, if_end),
            clause_diags(seq![], h, c, a, if_end),
        ),
    decreases c, 1int,
{
    let n = no_hatches();
    let e: Seq<Pattern> = seq![];
    let sp = Some((c.start, if_end));
    lemma_stmts_split(pats, h, c.body@, a);
    match c.test {
        Some(t) => {
            lemma_expr_split(pats, h, t, a, sp);
            lemma_splits_add(
                expr_diags(pats, h, t, a, sp),
                expr_diags(pats, n, t, a, sp),
                expr_diags(e, h, t, a, sp),
                stmts_diags(pats, h, c.body@, a),
                stmts_diags(pats, n, c.body@, a),
                stmts_diags(e, h, c.body@, a),
            );
        },
        None => {
            assert(async200_part(Seq::<Diag>::empty()) =~= Seq::<Diag>::empty());
            assert(hatch_part(Seq::<Diag>::empty()) =~= Seq::<Diag>::empty());
            lemma_splits_add(
                Seq::<Diag>::empty(),
                Seq::<Diag>::empty(),
                Seq::<Diag>::empty(),
                stmts_diags(pats, h, c.body@, a),
                stmts_diags(pats, n, c.body@, a),
                stmts_diags(e, h, c.body@, a),
            );
        },
    }
}

proof fn lemma_clauses_split(pats: Seq<Pattern>, h: Hatches, cs: Seq<ElifElse>, a: bool, if_end: u32)
    ensures
        splits(
            clauses_diags(pats, h, cs, a, if_end),
            clauses_diags(pats, no_hatches(), cs, a, if_end),
            clauses_diags(seq![], h, cs, a, if_end),
        ),
    decreases cs, 0int,
{
    if cs.len() == 0 {
        assert(async200_part(Seq::<Diag>::empty()) =~= Seq::<Diag>::empty());
        assert(hatch_part(Seq::<Diag>::empty()) =~= Seq::<Diag>::empty());
    } else {
        lemma_clauses_split(pats, h, cs.drop_last(), a, if_end);
        lemma_clause_split(pats, h, cs.last(), a, if_end);
        lemma_splits_add(
            clauses_diags(pats, h, cs.drop_last(), a, if_end),
            clauses_diags(pats, no_hatches(), cs.drop_last(), a, if_end),
            clauses_diags(seq![], h, cs.drop_last(), a, if_end),
            clause_diags(pats, h, cs.last(), a, if_end),
            clause_diags(pats, no_hatches(), cs.last(), a, if_end),
            clause_diags(seq![], h, cs.last(), a, if_end),
        );
    }
}

/// Both rule families in one walk: the ASYNC200 findings of a module are
/// exactly those found with no hatch rule enabled, and its type escape hatch
/// findings exactly those found with no blocking-call pattern, each in the
/// same order.
pub proof fn law_modes_are_independent(pats: Seq<Pattern>, h: Hatches, module: Seq<Stmt>)
    ensures
        async200_part(stmts_diags(pats, h, module, false)) == stmts_diags(
            pats,
            no_hatches(),
            module,
            false,
        ),
        hatch_part(stmts_diags(pats, h, module, false)) == stmts_diags(seq![], h, module, false),
{
    lemma_stmts_split(pats, h, module, false);
}

proof fn lemma_sync_expr(pats: Seq<Pattern>, h: Hatches, e: Expr, span: Option<(u32, u32)>)
    ensures
        async200_part(expr_diags(pats, h, e, false, span)) == Seq::<Diag>::empty(),
    decreases e, 1int,
{
    lemma_walk_split(pats, h, e, false, span);
    match e.node {
        ExprNode::Await(value) => match value.node {
            ExprNode::Call(_, _) => {
                lemma_call_split(pats, h, *value, false, span, false);
                lemma_sync_walk(pats, h, *value, span);
                lemma_parts_add(
                    call_diags(pats, h, *value, false, span, false),
                    walk_diags(pats, h, *value, false, span),
                );
                if let ExprNode::Call(_, _) = value.node {
                    assert(blocking_call_diags(pats, *value, false) =~= Seq::<Diag>::empty());
                }
                assert(banned_call_diags(no_hatches(), *value, span) =~= Seq::<Diag>::empty());
                assert(Seq::<Diag>::empty() + Seq::<Diag>::empty() =~= Seq::<Diag>::empty());
            },
            _ => lemma_sync_walk(pats, h, e, span),
        },
        ExprNode::Call(_, _) => {
            lemma_call_split(pats, h, e, false, span, true);
            lemma_sync_walk(pats, h, e, span);
            lemma_parts_add(call_diags(pats, h, e, false, span, true), walk_diags(pats, h, e, false, span));
            assert(blocking_call_diags(pats, e, false) =~= Seq::<Diag>::empty());
            assert(banned_call_diags(no_hatches(), e, span) =~= Seq::<Diag>::empty());
            assert(Seq::<Diag>::empty() + Seq::<Diag>::empty() =~= Seq::<Diag>::empty());
        },
        _ => lemma_sync_walk(pats, h, e, span),
    }
}

proof fn lemma_sync_walk(pats: Seq<Pattern>, h: Hatches, e: Expr, span: Option<(u32, u32)>)
    ensures
        async200_part(walk_diags(pats, h, e, false, span)) == Seq::<Diag>::empty(),
    decreases e, 0int,
{
    let z = Seq::<Diag>::empty();
    assert(z + z =~= z);
    assert(async200_part(z) =~= z);
    match e.node {
        ExprNode::Name(_) => {},
        ExprNode::Attribute(value, _) => lemma_sync_expr(pats, h, *value, span),
        ExprNode::Call(func, args) => {
            lemma_sync_expr(pats, h, *func, span);
            lemma_sync_exprs(pats, h, args@, span);
            lemma_parts_add(expr_diags(pats, h, *func, false, span), exprs_diags(pats, h, args@, false, span));
        },
        ExprNode::Subscript(value, slice) => {
            lemma_sync_expr(pats, h, *value, span);
            lemma_sync_expr(pats, h, *slice, span);
            lemma_parts_add(expr_diags(pats, h, *value, false, span), expr_diags(pats, h, *slice, false, span));
        },
        ExprNode::Await(value) => lemma_sync_expr(pats, h, *value, span),
        ExprNode::Lambda(parts) => lemma_sync_exprs(pats, h, parts@, span),
        ExprNode::Other(parts) => lemma_sync_exprs(pats, h, parts@, span),
    }
}

proof fn lemma_sync_exprs(pats: Seq<Pattern>, h: Hatches, es: Seq<Expr>, span: Option<(u32, u32)>)
    ensures
        async200_part(exprs_diags(pats, h, es, false, span)) == Seq::<Diag>::empty(),
    decreases es, 0int,
{
    let z = Seq::<Diag>::empty();
    assert(z + z =~= z);
    assert(async200_part(z) =~= z);
    if es.len() > 0 {
        lemma_sync_exprs(pats, h, es.drop_last(), span);
        lemma_sync_expr(pats, h, es.last(), span);
        lemma_parts_add(exprs_diags(pats, h, es.drop_last(), false, span), expr_diags(pats, h, es.last(), false, span));
    }
}

/// A `lambda` resets the async context: nothing inside a lambda is an ASYNC200
/// finding, even inside an `async def`.
pub proof fn law_lambda_resets_context(
    pats: Seq<Pattern>,
    h: Hatches,
    lambda: Expr,
    in_async: bool,
    span: Option<(u32, u32)>,
)
    requires
        lambda.node is Lambda,
    ensures
        async200_part(expr_diags(pats, h, lambda, in_async, span)) == Seq::<Diag>::empty(),
{
    lemma_sync_walk(pats, h, lambda, span);
}

/// Outside an async context no expression yields an ASYNC200 finding.
pub proof fn law_sync_context_has_no_async200(
    pats: Seq<Pattern>,
    h: Hatches,
    e: Expr,
    span: Option<(u32, u32)>,
)
    ensures
        async200_part(expr_diags(pats, h, e, false, span)) == Seq::<Diag>::empty(),
{
    lemma_sync_expr(pats, h, e, span);
}

/// A directly awaited call is exempt from ASYNC200: what is found at it is
/// its banned-call finding, if any, and what is found inside its callee and
/// arguments.
pub proof fn law_awaited_call_is_exempt(
    pats: Seq<Pattern>,
    h: Hatches,
    e: Expr,
    in_async: bool,
    span: Option<(u32, u32)>,
)
    requires
        e.node matches ExprNode::Await(value) && value.node is Call,
    ensures
        e.node matches ExprNode::Await(value) && expr_diags(pats, h, e, in_async, span)
            == banned_call_diags(h, *value, span) + walk_diags(pats, h, *value, in_async, span),
{
    if let ExprNode::Await(value) = e.node {
        assert(banned_call_diags(h, *value, span) + Seq::<Diag>::empty() =~= banned_call_diags(
            h,
            *value,
            span,
        ));
    }
}

/// A nested `def` resets the async context: what is found in a function
/// definition does not depend on whether it stands inside an `async def`.
pub proof fn law_def_resets_context(pats: Seq<Pattern>, h: Hatches, s: Stmt, a: bool, b: bool)
    requires
        s.node is FunctionDef,
    ensures
        stmt_diags(pats, h, s, a) == stmt_diags(pats, h, s, b),
{
}

} // verus!
