use ty_async::ast::{Expr, ExprNode, Stmt, StmtNode};
use ty_async::callgraph::{collect_functions, SourceFile};
use ty_async::checker::Pattern;
use ty_async::evidence::blocking_evidence;
use ty_async::resolve::{resolve_all, resolve_name};
use ty_async::transitive::{check_transitive, push_decimal};

/// The offset of the `n`th (0-based) occurrence of `needle` in `src`.
fn nth(src: &str, needle: &str, n: usize) -> u32 {
    src.match_indices(needle).nth(n).unwrap().0 as u32
}

/// A call without arguments of a dotted callee, such as `a.b()`, at `start`.
fn call_at(text: &str, start: u32) -> Expr {
    let dotted = text.strip_suffix("()").unwrap();
    let mut parts = dotted.split('.');
    let first = parts.next().unwrap();
    let mut func = Expr {
        node: ExprNode::Name(first.as_bytes().to_vec()),
        start,
        end: start + first.len() as u32,
    };
    for p in parts {
        let end = func.end + 1 + p.len() as u32;
        func = Expr { node: ExprNode::Attribute(Box::new(func), p.as_bytes().to_vec()), start, end };
    }
    Expr { node: ExprNode::Call(Box::new(func), vec![]), start, end: start + text.len() as u32 }
}

/// The `n`th occurrence of the call `text` in `src`.
fn call(src: &str, text: &str, n: usize) -> Expr {
    call_at(text, nth(src, text, n))
}

fn expr_stmt(e: Expr) -> Stmt {
    let (start, end) = (e.start, e.end);
    Stmt { node: StmtNode::Other { exprs: vec![e], body: vec![] }, start, end }
}

fn await_stmt(e: Expr, src: &str, n: usize) -> Stmt {
    let start = nth(src, "await ", n);
    let end = e.end;
    expr_stmt(Expr { node: ExprNode::Await(Box::new(e)), start, end })
}

/// The `n`th definition whose header is `header` (such as `def f(`).
fn def(src: &str, header: &str, n: usize, name: &str, is_async: bool, body: Vec<Stmt>) -> Stmt {
    let start = nth(src, header, n);
    let name_start = start + header.find(name).unwrap() as u32;
    let end = body.last().map(|s| s.end).unwrap_or(name_start);
    Stmt {
        node: StmtNode::FunctionDef {
            name: name.as_bytes().to_vec(),
            name_start,
            is_async,
            annotations: vec![],
            exprs: vec![],
            body,
        },
        start,
        end,
    }
}

fn class(src: &str, name: &str, body: Vec<Stmt>) -> Stmt {
    let start = nth(src, &format!("class {name}"), 0);
    let end = body.last().map(|s| s.end).unwrap_or(start);
    Stmt {
        node: StmtNode::ClassDef { name: name.as_bytes().to_vec(), name_start: start + 6, exprs: vec![], body },
        start,
        end,
    }
}

fn file(path: &str, src: &str, module: Vec<Stmt>) -> SourceFile {
    SourceFile { path: path.as_bytes().to_vec(), source: src.as_bytes().to_vec(), module }
}

fn stripe() -> Vec<Pattern> {
    vec![Pattern { glob: b"stripe.*".to_vec(), replacement: b"alt()".to_vec() }]
}

fn reports(files: &Vec<SourceFile>) -> Vec<(usize, usize, u64, String)> {
    check_transitive(files, &stripe())
        .into_iter()
        .map(|f| (f.file, f.line, f.col, String::from_utf8(f.message).unwrap()))
        .collect()
}

const ONE_HOP: &str = "def helper(x):\n    stripe.charge()\n\nasync def handler():\n    helper()\n";

fn one_hop(handler_body: Vec<Stmt>) -> Vec<SourceFile> {
    let src = ONE_HOP;
    vec![file(
        "app.py",
        src,
        vec![
            def(src, "def helper(", 0, "helper", false, vec![expr_stmt(call(src, "stripe.charge()", 0))]),
            def(src, "async def handler(", 0, "handler", true, handler_body),
        ],
    )]
}

#[test]
fn call_to_blocking_helper_is_reported() {
    let src = ONE_HOP;
    let files = one_hop(vec![expr_stmt(call(src, "helper()", 0))]);
    assert_eq!(
        reports(&files),
        vec![(
            0,
            5,
            5,
            "ASYNC200T blocking sync call stripe.* reachable from async function via helper (app.py:2:5)"
                .to_string()
        )]
    );
}

#[test]
fn chain_crosses_files() {
    let a = "async def handler():\n    outer()\n";
    let b = "def outer(x):\n    inner()\n\ndef inner(x):\n    x = 1\n    stripe.Charge.create()\n";
    let files = vec![
        file("a.py", a, vec![def(a, "async def handler(", 0, "handler", true, vec![expr_stmt(call(a, "outer()", 0))])]),
        file(
            "b.py",
            b,
            vec![
                def(b, "def outer(", 0, "outer", false, vec![expr_stmt(call(b, "inner()", 0))]),
                def(b, "def inner(", 0, "inner", false, vec![expr_stmt(call(b, "stripe.Charge.create()", 0))]),
            ],
        ),
    ];
    assert_eq!(
        reports(&files),
        vec![(
            0,
            2,
            5,
            "ASYNC200T blocking sync call stripe.* reachable from async function via outer -> inner (b.py:6:5)"
                .to_string()
        )]
    );
}

#[test]
fn ambiguous_name_is_skipped() {
    let a = "async def handler():\n    helper()\n";
    let b = "def helper(x):\n    stripe.charge()\n";
    let c = "def helper(x):\n    pass\n";
    let files = vec![
        file("a.py", a, vec![def(a, "async def handler(", 0, "handler", true, vec![expr_stmt(call(a, "helper()", 0))])]),
        file("b.py", b, vec![def(b, "def helper(", 0, "helper", false, vec![expr_stmt(call(b, "stripe.charge()", 0))])]),
        file("c.py", c, vec![def(c, "def helper(", 0, "helper", false, vec![])]),
    ];
    assert_eq!(reports(&files), vec![]);
}

#[test]
fn same_file_wins_over_other_files() {
    let a = "def helper(x):\n    stripe.charge()\n\nasync def handler():\n    helper()\n";
    let b = "def helper(x):\n    pass\n";
    let files = vec![
        file(
            "a.py",
            a,
            vec![
                def(a, "def helper(", 0, "helper", false, vec![expr_stmt(call(a, "stripe.charge()", 0))]),
                def(a, "async def handler(", 0, "handler", true, vec![expr_stmt(call(a, "helper()", 0))]),
            ],
        ),
        file("b.py", b, vec![def(b, "def helper(", 0, "helper", false, vec![])]),
    ];
    assert_eq!(reports(&files).len(), 1);
}

#[test]
fn same_class_wins_over_the_file() {
    let src = "class A:\n    def run(self):\n        stripe.charge()\n\n    async def go(self):\n        self.run()\n\nclass B:\n    def run(self):\n        pass\n";
    let files = vec![file(
        "m.py",
        src,
        vec![
            class(
                src,
                "A",
                vec![
                    def(src, "def run(", 0, "run", false, vec![expr_stmt(call(src, "stripe.charge()", 0))]),
                    def(src, "async def go(", 0, "go", true, vec![expr_stmt(call(src, "self.run()", 0))]),
                ],
            ),
            class(src, "B", vec![def(src, "def run(", 1, "run", false, vec![])]),
        ],
    )];
    assert_eq!(
        reports(&files),
        vec![(
            0,
            6,
            9,
            "ASYNC200T blocking sync call stripe.* reachable from async function via run (m.py:3:9)".to_string()
        )]
    );
}

#[test]
fn noqa_silences_the_call_site() {
    let src = "def helper(x):\n    stripe.charge()\n\nasync def handler():\n    helper()  # noqa: ASYNC200\n";
    let files = vec![file(
        "app.py",
        src,
        vec![
            def(src, "def helper(", 0, "helper", false, vec![expr_stmt(call(src, "stripe.charge()", 0))]),
            def(src, "async def handler(", 0, "handler", true, vec![expr_stmt(call(src, "helper()", 0))]),
        ],
    )];
    assert_eq!(reports(&files), vec![]);
}

#[test]
fn awaited_call_is_not_followed() {
    let src = "def helper(x):\n    stripe.charge()\n\nasync def handler():\n    await helper()\n";
    let files = vec![file(
        "app.py",
        src,
        vec![
            def(src, "def helper(", 0, "helper", false, vec![expr_stmt(call(src, "stripe.charge()", 0))]),
            def(src, "async def handler(", 0, "handler", true, vec![await_stmt(call(src, "helper()", 0), src, 0)]),
        ],
    )];
    assert_eq!(reports(&files), vec![]);
}

#[test]
fn helper_passed_to_a_thread_is_not_a_call() {
    let src = "def helper(x):\n    stripe.charge()\n\nasync def handler():\n    await asyncio.to_thread(helper)\n";
    let start = nth(src, "asyncio.to_thread(", 0);
    let arg = Expr { node: ExprNode::Name(b"helper".to_vec()), start: nth(src, "helper)", 0), end: nth(src, "helper)", 0) + 6 };
    let mut c = call_at("asyncio.to_thread()", start);
    c.end = arg.end + 1;
    if let ExprNode::Call(_, args) = &mut c.node {
        args.push(arg);
    }
    let files = vec![file(
        "app.py",
        src,
        vec![
            def(src, "def helper(", 0, "helper", false, vec![expr_stmt(call(src, "stripe.charge()", 0))]),
            def(src, "async def handler(", 0, "handler", true, vec![await_stmt(c, src, 0)]),
        ],
    )];
    assert_eq!(reports(&files), vec![]);
}

#[test]
fn direct_match_is_left_to_async200() {
    let src = "async def handler():\n    stripe.charge()\n";
    let files = vec![file(
        "app.py",
        src,
        vec![def(src, "async def handler(", 0, "handler", true, vec![expr_stmt(call(src, "stripe.charge()", 0))])],
    )];
    assert_eq!(reports(&files), vec![]);
}

#[test]
fn async_callee_is_a_boundary() {
    let src = "async def inner(x):\n    stripe.charge()\n\nasync def handler():\n    inner()\n";
    let files = vec![file(
        "app.py",
        src,
        vec![
            def(src, "async def inner(", 0, "inner", true, vec![expr_stmt(call(src, "stripe.charge()", 0))]),
            def(src, "async def handler(", 0, "handler", true, vec![expr_stmt(call(src, "inner()", 0))]),
        ],
    )];
    assert_eq!(reports(&files), vec![]);
}

#[test]
fn cycle_without_blocking_call_is_quiet() {
    let src = "def a(x):\n    b()\n\ndef b(x):\n    a()\n\nasync def handler():\n    a()\n";
    let files = vec![file(
        "app.py",
        src,
        vec![
            def(src, "def a(", 0, "a", false, vec![expr_stmt(call(src, "b()", 0))]),
            def(src, "def b(", 0, "b", false, vec![expr_stmt(call(src, "a()", 0))]),
            def(src, "async def handler(", 0, "handler", true, vec![expr_stmt(call(src, "a()", 1))]),
        ],
    )];
    assert_eq!(reports(&files), vec![]);
}

#[test]
fn cycle_with_blocking_call_is_reported_once_per_site() {
    let src = "def a(x):\n    b()\n\ndef b(x):\n    a()\n    stripe.charge()\n\nasync def handler():\n    a()\n";
    let files = vec![file(
        "app.py",
        src,
        vec![
            def(src, "def a(", 0, "a", false, vec![expr_stmt(call(src, "b()", 0))]),
            def(
                src,
                "def b(",
                0,
                "b",
                false,
                vec![expr_stmt(call(src, "a()", 0)), expr_stmt(call(src, "stripe.charge()", 0))],
            ),
            def(src, "async def handler(", 0, "handler", true, vec![expr_stmt(call(src, "a()", 1))]),
        ],
    )];
    assert_eq!(
        reports(&files),
        vec![(
            0,
            9,
            5,
            "ASYNC200T blocking sync call stripe.* reachable from async function via a -> b (app.py:6:5)".to_string()
        )]
    );
}

#[test]
fn evidence_is_found_for_reaching_functions_only() {
    let src = ONE_HOP;
    let files = one_hop(vec![expr_stmt(call(src, "helper()", 0))]);
    let fns = collect_functions(&files, &stripe());
    assert_eq!(fns.len(), 2);
    assert_eq!(fns[0].name, b"helper".to_vec());
    assert_eq!(fns[0].sites.len(), 1);
    assert_eq!(fns[0].sites[0].blocking, Some(b"stripe.*".to_vec()));
    assert_eq!(fns[1].sites[0].callee, Some(b"helper".to_vec()));
    let table = resolve_all(&fns);
    assert_eq!(table, vec![vec![None], vec![Some(0)]]);
    let ev = blocking_evidence(&fns, &table);
    let e = ev[0].unwrap();
    assert_eq!((e.site, e.via, e.depth), (0, None, 0));
    assert!(ev[1].is_none());
}

#[test]
fn resolution_scopes() {
    let src = "class A:\n    def run(self):\n        pass\n\nclass B:\n    def run(self):\n        self.run()\n\ndef run():\n    pass\n";
    let files = vec![file(
        "m.py",
        src,
        vec![
            class(src, "A", vec![def(src, "def run(", 0, "run", false, vec![])]),
            class(src, "B", vec![def(src, "def run(", 1, "run", false, vec![expr_stmt(call(src, "self.run()", 0))])]),
            def(src, "def run(", 2, "run", false, vec![]),
        ],
    )];
    let fns = collect_functions(&files, &stripe());
    assert_eq!(fns.len(), 3);
    assert_eq!(resolve_name(&fns, 1, b"run"), Some(1));
    assert_eq!(resolve_name(&fns, 2, b"run"), None);
    assert_eq!(resolve_name(&fns, 2, b"missing"), None);
}

#[test]
fn decimal_digits() {
    let mut out = b"x".to_vec();
    push_decimal(&mut out, 0);
    push_decimal(&mut out, 9);
    push_decimal(&mut out, 10);
    push_decimal(&mut out, 18446744073709551615);
    assert_eq!(String::from_utf8(out).unwrap(), "x091018446744073709551615");
}
