use ty_async::ast::{ElifElse, Expr, ExprNode, Stmt, StmtNode};
use ty_async::checker::{check_module, Diag, HatchKind, Hatches, Pattern};
use ty_async::report::check_source;

fn at(src: &str, needle: &str) -> u32 {
    src.find(needle).unwrap() as u32
}

fn name(id: &str, start: u32) -> Expr {
    Expr { node: ExprNode::Name(id.as_bytes().to_vec()), start, end: start + id.len() as u32 }
}

fn attr(value: Expr, a: &str) -> Expr {
    let start = value.start;
    let end = value.end + 1 + a.len() as u32;
    Expr { node: ExprNode::Attribute(Box::new(value), a.as_bytes().to_vec()), start, end }
}

fn call(func: Expr, args: Vec<Expr>, end: u32) -> Expr {
    let start = func.start;
    Expr { node: ExprNode::Call(Box::new(func), args), start, end }
}

fn await_(value: Expr, start: u32) -> Expr {
    let end = value.end;
    Expr { node: ExprNode::Await(Box::new(value)), start, end }
}

fn lambda(parts: Vec<Expr>, start: u32, end: u32) -> Expr {
    Expr { node: ExprNode::Lambda(parts), start, end }
}

fn subscript(value: Expr, slice: Expr, end: u32) -> Expr {
    let start = value.start;
    Expr { node: ExprNode::Subscript(Box::new(value), Box::new(slice)), start, end }
}

fn simple(exprs: Vec<Expr>, start: u32, end: u32) -> Stmt {
    Stmt { node: StmtNode::Other { exprs, body: vec![] }, start, end }
}

fn def(is_async: bool, name_start: u32, annotations: Vec<Expr>, body: Vec<Stmt>, start: u32, end: u32) -> Stmt {
    Stmt {
        node: StmtNode::FunctionDef {
            name: b"f".to_vec(),
            name_start,
            is_async,
            annotations,
            exprs: vec![],
            body,
        },
        start,
        end,
    }
}

fn pattern(glob: &str, repl: &str) -> Pattern {
    Pattern { glob: glob.as_bytes().to_vec(), replacement: repl.as_bytes().to_vec() }
}

fn no_hatches() -> Hatches {
    Hatches { no_any: false, no_getattr: false, no_object: false }
}

fn all_hatches() -> Hatches {
    Hatches { no_any: true, no_getattr: true, no_object: true }
}

fn lines(src: &str, module: &Vec<Stmt>, pats: &[Pattern], hatches: Hatches) -> Vec<(usize, u64, String)> {
    check_source(src.as_bytes(), module, pats, hatches)
        .into_iter()
        .map(|f| (f.line, f.col, String::from_utf8(f.message).unwrap()))
        .collect()
}

/// async def f():
///     stripe.Customer.create()
///     await stripe.charge()
///     g = lambda: stripe.later()
fn sample() -> (String, Vec<Stmt>) {
    let src = "async def f():\n    stripe.Customer.create()\n    await stripe.charge()\n    g = lambda: stripe.later()\n".to_string();
    let s = src.as_str();
    let c1 = at(s, "stripe.Customer");
    let call1 = call(attr(attr(name("stripe", c1), "Customer"), "create"), vec![], c1 + 24);
    let a2 = at(s, "await");
    let c2 = at(s, "stripe.charge");
    let call2 = await_(call(attr(name("stripe", c2), "charge"), vec![], c2 + 15), a2);
    let g = at(s, "g =");
    let l = at(s, "lambda");
    let c3 = at(s, "stripe.later");
    let call3 = call(attr(name("stripe", c3), "later"), vec![], c3 + 14);
    let body = vec![
        simple(vec![call1], c1, c1 + 24),
        simple(vec![call2], a2, c2 + 15),
        simple(vec![name("g", g), lambda(vec![call3], l, c3 + 14)], g, c3 + 14),
    ];
    let module = vec![def(true, at(s, "f("), vec![], body, 0, src.len() as u32)];
    (src, module)
}

#[test]
fn blocking_call_in_async_def_is_reported() {
    let (src, module) = sample();
    let pats = vec![pattern("stripe.*", "alt()")];
    let got = lines(&src, &module, &pats, no_hatches());
    assert_eq!(
        got,
        vec![(
            2,
            5,
            "ASYNC200 User-configured blocking sync call stripe.* in async function, consider replacing with alt()."
                .to_string()
        )]
    );
}

#[test]
fn first_matching_pattern_wins() {
    let (src, module) = sample();
    let pats = vec![pattern("*.create", "first()"), pattern("stripe.*", "second()")];
    let diags = check_module(&module, &pats, no_hatches());
    assert_eq!(diags, vec![Diag::Async200 { offset: 19, pattern_idx: 0 }]);
}

#[test]
fn no_patterns_no_async200() {
    let (src, module) = sample();
    assert_eq!(lines(&src, &module, &[], all_hatches()), vec![]);
}

#[test]
fn sync_def_is_not_checked() {
    let src = "def f():\n    stripe.x()\n";
    let c = at(src, "stripe");
    let module = vec![def(
        false,
        4,
        vec![],
        vec![simple(vec![call(attr(name("stripe", c), "x"), vec![], c + 10)], c, c + 10)],
        0,
        src.len() as u32,
    )];
    assert_eq!(check_module(&module, &[pattern("stripe.*", "a()")], no_hatches()), vec![]);
}

#[test]
fn nested_sync_def_resets_the_context() {
    let src = "async def f():\n    def g():\n        stripe.x()\n    stripe.y()\n";
    let c1 = at(src, "stripe.x");
    let c2 = at(src, "stripe.y");
    let inner = def(
        false,
        at(src, "g("),
        vec![],
        vec![simple(vec![call(attr(name("stripe", c1), "x"), vec![], c1 + 10)], c1, c1 + 10)],
        at(src, "def g"),
        c1 + 10,
    );
    let module = vec![def(
        true,
        at(src, "f("),
        vec![],
        vec![inner, simple(vec![call(attr(name("stripe", c2), "y"), vec![], c2 + 10)], c2, c2 + 10)],
        0,
        src.len() as u32,
    )];
    let diags = check_module(&module, &[pattern("stripe.*", "a()")], no_hatches());
    assert_eq!(diags, vec![Diag::Async200 { offset: c2, pattern_idx: 0 }]);
}

#[test]
fn calls_inside_call_arguments_and_results() {
    // async def f(): stripe.a(x.load_data())[0].run()
    let src = "async def f(): stripe.a(x.load_data())[0].run()\n";
    let s = at(src, "stripe");
    let ld = at(src, "x.load_data");
    let inner = call(attr(name("x", ld), "load_data"), vec![], ld + 13);
    let outer = call(attr(name("stripe", s), "a"), vec![inner], ld + 14);
    let zero = Expr { node: ExprNode::Other(vec![]), start: ld + 15, end: ld + 16 };
    let sub = subscript(outer, zero, ld + 17);
    let run = call(attr(sub, "run"), vec![], ld + 23);
    let module = vec![def(true, at(src, "f("), vec![], vec![simple(vec![run], s, ld + 23)], 0, src.len() as u32)];
    let pats = vec![pattern("*.load_data", "a()"), pattern("stripe.*", "b()")];
    let mut diags = check_module(&module, &pats, no_hatches());
    diags.sort_by_key(|d| match d {
        Diag::Async200 { offset, .. } => *offset,
        _ => 0,
    });
    assert_eq!(
        diags,
        vec![
            Diag::Async200 { offset: s, pattern_idx: 1 },
            Diag::Async200 { offset: s, pattern_idx: 1 },
            Diag::Async200 { offset: ld, pattern_idx: 0 },
        ]
    );
}

#[test]
fn getattr_and_hasattr_are_banned_even_when_awaited() {
    let src = "x = getattr(o, 'a')\nasync def f():\n    await hasattr(o, 'b')\n";
    let g = at(src, "getattr");
    let h = at(src, "hasattr");
    let aw = at(src, "await");
    let stmt1 = simple(vec![name("x", 0), call(name("getattr", g), vec![name("o", g + 8)], g + 19)], 0, g + 19);
    let stmt2 = def(
        true,
        at(src, "f("),
        vec![],
        vec![simple(vec![await_(call(name("hasattr", h), vec![name("o", h + 8)], h + 19), aw)], aw, h + 19)],
        at(src, "async"),
        src.len() as u32,
    );
    let got = lines(src, &vec![stmt1, stmt2], &[pattern("*", "never()")], all_hatches());
    assert_eq!(
        got,
        vec![
            (1, 5, "NO-GETATTR `getattr(...)` is banned \u{2014} rewrite or add `# lint-ignore: no-getattr` to this line.".to_string()),
            (3, 11, "NO-GETATTR `hasattr(...)` is banned \u{2014} rewrite or add `# lint-ignore: no-getattr` to this line.".to_string()),
        ]
    );
}

#[test]
fn any_and_object_in_annotations() {
    let src = "def f(x: typing.Any, y: list[object]) -> t.Any:\n    z: Any = 1\n";
    let ta = at(src, "typing.Any");
    let ob = at(src, "object");
    let li = at(src, "list[");
    let ret = at(src, "t.Any");
    let z = at(src, "z:");
    let za = at(src, "Any = 1");
    let anns = vec![
        attr(name("typing", ta), "Any"),
        subscript(name("list", li), name("object", ob), ob + 7),
        attr(name("t", ret), "Any"),
    ];
    let body = vec![Stmt {
        node: StmtNode::AnnAssign { annotation: name("Any", za), exprs: vec![name("z", z), Expr { node: ExprNode::Other(vec![]), start: za + 6, end: za + 7 }] },
        start: z,
        end: za + 7,
    }];
    let module = vec![def(false, 4, anns, body, 0, src.len() as u32)];
    let got = lines(src, &module, &[], all_hatches());
    let any_msg = "NO-ANY `Any` in annotation \u{2014} rewrite or add `# lint-ignore: no-any` to this line.".to_string();
    let obj_msg = "NO-OBJECT `object` in annotation \u{2014} rewrite or add `# lint-ignore: no-object` to this line.".to_string();
    assert_eq!(
        got,
        vec![
            (1, ta as u64 + 1, any_msg.clone()),
            (1, ob as u64 + 1, obj_msg),
            (1, ret as u64 + 1, any_msg.clone()),
            (2, 8, any_msg),
        ]
    );
}

#[test]
fn other_modules_named_any_are_not_typing() {
    let src = "x: foo.Any = 1\n";
    let module = vec![Stmt {
        node: StmtNode::AnnAssign { annotation: attr(name("foo", 3), "Any"), exprs: vec![name("x", 0)] },
        start: 0,
        end: 14,
    }];
    assert_eq!(check_module(&module, &[], all_hatches()), vec![]);
}

#[test]
fn elif_test_is_reported_at_its_own_line() {
    let src = "async def f():\n    if a:\n        pass\n    elif stripe.x():\n        pass\n";
    let c = at(src, "stripe");
    let elif = at(src, "elif");
    let if_stmt = Stmt {
        node: StmtNode::If {
            test: name("a", at(src, "a:")),
            body: vec![simple(vec![], at(src, "pass"), at(src, "pass") + 4)],
            clauses: vec![ElifElse {
                test: Some(call(attr(name("stripe", c), "x"), vec![], c + 10)),
                body: vec![],
                start: elif,
            }],
        },
        start: at(src, "if a"),
        end: src.len() as u32 - 1,
    };
    let module = vec![def(true, at(src, "f("), vec![], vec![if_stmt], 0, src.len() as u32)];
    let got = lines(src, &module, &[pattern("stripe.*", "a()")], no_hatches());
    assert_eq!(got.len(), 1);
    assert_eq!((got[0].0, got[0].1), (4, 10));
}

#[test]
fn noqa_suppresses_a_blocking_call() {
    let src = "async def f():\n    stripe.x()  # noqa: ASYNC200\n";
    let c = at(src, "stripe");
    let module = vec![def(
        true,
        at(src, "f("),
        vec![],
        vec![simple(vec![call(attr(name("stripe", c), "x"), vec![], c + 10)], c, c + 10)],
        0,
        src.len() as u32,
    )];
    let pats = [pattern("stripe.*", "a()")];
    assert_eq!(check_module(&module, &pats, no_hatches()).len(), 1);
    assert_eq!(lines(src, &module, &pats, no_hatches()), vec![]);
}

#[test]
fn hatch_kinds_are_told_apart() {
    assert_ne!(HatchKind::GetattrCall, HatchKind::HasattrCall);
}

#[test]
fn both_modes_give_the_union() {
    let src = "async def f(x: Any):\n    getattr(x, 'y')\n    stripe.z()\n";
    let g = at(src, "getattr");
    let s = at(src, "stripe");
    let body = vec![
        simple(vec![call(name("getattr", g), vec![name("x", g + 8)], g + 15)], g, g + 15),
        simple(vec![call(attr(name("stripe", s), "z"), vec![], s + 10)], s, s + 10),
    ];
    let module = vec![def(true, at(src, "f("), vec![name("Any", at(src, "Any"))], body, 0, src.len() as u32)];
    let pats = vec![pattern("stripe.*", "alt()")];
    let both = check_module(&module, &pats, all_hatches());
    let only_async: Vec<Diag> = both.iter().copied().filter(|d| matches!(d, Diag::Async200 { .. })).collect();
    let only_hatch: Vec<Diag> = both.iter().copied().filter(|d| matches!(d, Diag::Hatch { .. })).collect();
    assert_eq!(only_async, check_module(&module, &pats, no_hatches()));
    assert_eq!(only_hatch, check_module(&module, &[], all_hatches()));
    assert_eq!(only_async.len(), 1);
    assert_eq!(only_hatch.len(), 2);
}

#[test]
fn clean_module_has_no_findings() {
    let src = "def f():\n    return 1\n";
    let module = vec![def(false, 4, vec![], vec![simple(vec![], 13, 21)], 0, src.len() as u32)];
    assert_eq!(lines(src, &module, &[pattern("*", "x()")], all_hatches()), vec![]);
}

#[test]
fn configured_pattern_wins_over_the_preset() {
    let src = "async def f():\n    time.sleep(1)\n    open(p)\n";
    let c1 = at(src, "time.sleep");
    let c2 = at(src, "open");
    let body = vec![
        simple(vec![call(attr(name("time", c1), "sleep"), vec![], c1 + 13)], c1, c1 + 13),
        simple(vec![call(name("open", c2), vec![], c2 + 7)], c2, c2 + 7),
    ];
    let module = vec![def(true, at(src, "f("), vec![], body, 0, src.len() as u32)];
    let mut pats = vec![pattern("time.sleep", "trio.sleep()")];
    pats.extend(ty_async::preset::stdlib_preset());
    assert_eq!(
        lines(src, &module, &pats, no_hatches()),
        vec![
            (
                2,
                5,
                "ASYNC200 User-configured blocking sync call time.sleep in async function, consider replacing with trio.sleep()."
                    .to_string()
            ),
            (
                3,
                5,
                "ASYNC200 User-configured blocking sync call open in async function, consider replacing with anyio.open_file()."
                    .to_string()
            ),
        ]
    );
}
