//! The parts of a Python syntax tree that the checks read.
//!
//! Offsets are byte offsets into the source text.
use vstd::prelude::*;
use crate::bytes::{bytes_eq, push_all};
use vstd::string::StringSliceAdditionalSpecFns;

verus! {

/// An expression with the byte range it spans.
pub struct Expr {
    pub node: ExprNode,
    pub start: u32,
    pub end: u32,
}

/// The kinds of expression that the checks tell apart.
pub enum ExprNode {
    /// A bare name, such as `open`.
    Name(Vec<u8>),
    /// `value.attr`.
    Attribute(Box<Expr>, Vec<u8>),
    /// `func(...)`: the callee, then the positional arguments followed by the
    /// values of the keyword arguments.
    Call(Box<Expr>, Vec<Expr>),
    /// `value[slice]`.
    Subscript(Box<Expr>, Box<Expr>),
    /// `await value`.
    Await(Box<Expr>),
    /// A `lambda`, with all of its sub-expressions (parameter defaults and body).
    Lambda(Vec<Expr>),
    /// Any other expression, with its direct sub-expressions.
    Other(Vec<Expr>),
}

/// A statement with the byte range it spans.
pub struct Stmt {
    pub node: StmtNode,
    pub start: u32,
    pub end: u32,
}

/// The kinds of statement that the checks tell apart.
pub enum StmtNode {
    /// `def` or `async def`. `name` is the function's name and `name_start` its
    /// offset; `annotations` are the parameter annotations followed by the
    /// return annotation; `exprs` are the other direct sub-expressions
    /// (decorators, defaults, type parameter bounds); `body` is the function
    /// body.
    FunctionDef {
        name: Vec<u8>,
        name_start: u32,
        is_async: bool,
        annotations: Vec<Expr>,
        exprs: Vec<Expr>,
        body: Vec<Stmt>,
    },
    /// `class`. `name` is the class name and `name_start` its offset; `exprs`
    /// are the decorators, bases and keywords; `body` is the class body.
    ClassDef { name: Vec<u8>, name_start: u32, exprs: Vec<Expr>, body: Vec<Stmt> },
    /// An annotated assignment: the annotation and the other direct
    /// sub-expressions (target and value).
    AnnAssign { annotation: Expr, exprs: Vec<Expr> },
    /// `if test: body` followed by its `elif` and `else` clauses.
    If { test: Expr, body: Vec<Stmt>, clauses: Vec<ElifElse> },
    /// Any other statement, with the direct sub-expressions that belong to it
    /// and the statements nested directly inside it.
    Other { exprs: Vec<Expr>, body: Vec<Stmt> },
}

/// An `elif` clause (with a test) or an `else` clause (without one), with the
/// offset of its keyword.
pub struct ElifElse {
    pub test: Option<Expr>,
    pub body: Vec<Stmt>,
    pub start: u32,
}

/// The direct sub-expressions of `e`, in source order.
pub open spec fn children(e: Expr) -> Seq<Expr> {
    match e.node {
        ExprNode::Name(_) => seq![],
        ExprNode::Attribute(value, _) => seq![*value],
        ExprNode::Call(func, args) => seq![*func] + args@,
        ExprNode::Subscript(value, slice) => seq![*value, *slice],
        ExprNode::Await(value) => seq![*value],
        ExprNode::Lambda(parts) => parts@,
        ExprNode::Other(parts) => parts@,
    }
}

/// The byte written in place of an expression that cannot be spelled out: it
/// never equals a pattern byte, so only `*` and `?` match it.
pub const PLACEHOLDER: u8 = 1;

/// The text that a callee is matched against: names and attribute chains
/// spelled out, call results as `(...)`, subscripts as `[...]`, and anything
/// else as a single placeholder byte.
pub open spec fn unparsed(e: Expr) -> Seq<u8>
    decreases e,
{
    match e.node {
        ExprNode::Name(id) => id@,
        ExprNode::Attribute(value, attr) => unparsed(*value) + seq!['.' as u8] + attr@,
        ExprNode::Call(func, _) => unparsed(*func) + "(...)".spec_bytes(),
        ExprNode::Subscript(value, _) => unparsed(*value) + "[...]".spec_bytes(),
        _ => seq![PLACEHOLDER],
    }
}

/// Appends the text of `expr` that patterns are matched against to `out`.
pub fn unparse(expr: &Expr, out: &mut Vec<u8>)
    ensures
        final(out)@ == old(out)@ + unparsed(*expr),
    decreases expr,
{
    match &expr.node {
        ExprNode::Name(id) => push_all(out, id.as_slice()),
        ExprNode::Attribute(value, attr) => {
            unparse(value, out);
            out.push('.' as u8);
            push_all(out, attr.as_slice());
        },
        ExprNode::Call(func, _) => {
            unparse(func, out);
            push_all(out, "(...)".as_bytes());
        },
        ExprNode::Subscript(value, _) => {
            unparse(value, out);
            push_all(out, "[...]".as_bytes());
        },
        _ => out.push(PLACEHOLDER),
    }
}

/// Whether `name` is one of the names under which the `typing` module is
/// commonly imported (`t` and `tp` cover `import typing as t`).
pub open spec fn is_typing_module_name(name: Seq<u8>) -> bool {
    ||| name == "typing".spec_bytes()
    ||| name == "typing_extensions".spec_bytes()
    ||| name == "t".spec_bytes()
    ||| name == "tp".spec_bytes()
}

/// `Any`, or `Any` reached as an attribute of a typing module name.
pub open spec fn spec_is_typing_any(e: Expr) -> bool {
    match e.node {
        ExprNode::Name(id) => id@ == "Any".spec_bytes(),
        ExprNode::Attribute(value, attr) => attr@ == "Any".spec_bytes() && match value.node {
            ExprNode::Name(base) => is_typing_module_name(base@),
            _ => false,
        },
        _ => false,
    }
}

/// Whether `expr` names `Any`: bare, or as `typing.Any`, `typing_extensions.Any`,
/// `t.Any` or `tp.Any`.
pub fn is_typing_any(expr: &Expr) -> (r: bool)
    ensures
        r == spec_is_typing_any(*expr),
{
    match &expr.node {
        ExprNode::Name(n) => bytes_eq(n.as_slice(), "Any".as_bytes()),
        ExprNode::Attribute(value, attr) => {
            if !bytes_eq(attr.as_slice(), "Any".as_bytes()) {
                return false;
            }
            match &value.node {
                ExprNode::Name(base) => {
                    let b = base.as_slice();
                    bytes_eq(b, "typing".as_bytes()) || bytes_eq(b, "typing_extensions".as_bytes())
                        || bytes_eq(b, "t".as_bytes()) || bytes_eq(b, "tp".as_bytes())
                },
                _ => false,
            }
        },
        _ => false,
    }
}

} // verus!
