use ty_async::checker::{Diag, HatchKind, Pattern};
use ty_async::report::{async200_message_bytes, hatch_message_bytes, report, LineIndex};

#[test]
fn line_index_numbers_lines_from_one() {
    let src = b"ab\ncd\n";
    let index = LineIndex::new(src);
    assert_eq!(index.line_of(0), 1);
    assert_eq!(index.line_of(2), 1);
    assert_eq!(index.line_of(3), 2);
    assert_eq!(index.line_of(5), 2);
    assert_eq!(index.line_of(6), 3);
    assert_eq!(index.line_of(100), 3);
    assert_eq!(index.col_of(0), 1);
    assert_eq!(index.col_of(4), 2);
    assert_eq!(index.col_of(6), 1);
    assert_eq!(index.line_text(src, 1), b"ab");
    assert_eq!(index.line_text(src, 2), b"cd");
    assert_eq!(index.line_text(src, 3), b"");
}

#[test]
fn line_index_of_empty_text() {
    let index = LineIndex::new(b"");
    assert_eq!(index.line_of(0), 1);
    assert_eq!(index.col_of(0), 1);
    assert_eq!(index.line_text(b"", 1), b"");
}

fn pattern(glob: &str, repl: &str) -> Pattern {
    Pattern { glob: glob.as_bytes().to_vec(), replacement: repl.as_bytes().to_vec() }
}

#[test]
fn messages_are_spelled_out() {
    assert_eq!(
        String::from_utf8(async200_message_bytes(&pattern("stripe.*", "alt()"))).unwrap(),
        "ASYNC200 User-configured blocking sync call stripe.* in async function, consider replacing with alt()."
    );
    assert_eq!(
        String::from_utf8(hatch_message_bytes(HatchKind::AnyInAnnotation)).unwrap(),
        "NO-ANY `Any` in annotation \u{2014} rewrite or add `# lint-ignore: no-any` to this line."
    );
    assert_eq!(
        String::from_utf8(hatch_message_bytes(HatchKind::ObjectInAnnotation)).unwrap(),
        "NO-OBJECT `object` in annotation \u{2014} rewrite or add `# lint-ignore: no-object` to this line."
    );
    assert_eq!(
        String::from_utf8(hatch_message_bytes(HatchKind::HasattrCall)).unwrap(),
        "NO-GETATTR `hasattr(...)` is banned \u{2014} rewrite or add `# lint-ignore: no-getattr` to this line."
    );
}

#[test]
fn report_honours_noqa_and_lint_ignore() {
    let src = b"a()\nb()  # noqa\nc: Any  # lint-ignore: no-any\nd: Any\n";
    let pats = vec![pattern("a", "x()"), pattern("b", "y()")];
    let diags = vec![
        Diag::Async200 { offset: 0, pattern_idx: 0 },
        Diag::Async200 { offset: 4, pattern_idx: 1 },
        Diag::Hatch { kind: HatchKind::AnyInAnnotation, offset: 19, span_start: 16, span_end: 22 },
        Diag::Hatch { kind: HatchKind::AnyInAnnotation, offset: 49, span_start: 46, span_end: 52 },
    ];
    let out = report(src, &pats, &diags);
    assert_eq!(out.len(), 2);
    assert_eq!((out[0].line, out[0].col), (1, 1));
    assert_eq!(
        String::from_utf8(out[0].message.clone()).unwrap(),
        "ASYNC200 User-configured blocking sync call a in async function, consider replacing with x()."
    );
    assert_eq!((out[1].line, out[1].col), (4, 4));
    assert_eq!(
        String::from_utf8(out[1].message.clone()).unwrap(),
        "NO-ANY `Any` in annotation \u{2014} rewrite or add `# lint-ignore: no-any` to this line."
    );
}

#[test]
fn lint_ignore_anywhere_in_the_span_suppresses() {
    let src = b"def f(\n    x: Any,  # lint-ignore: no-any\n):\n    pass\n";
    let diags = vec![Diag::Hatch {
        kind: HatchKind::AnyInAnnotation,
        offset: 14,
        span_start: 4,
        span_end: 49,
    }];
    assert_eq!(report(src, &[], &diags).len(), 0);
    let other = vec![Diag::Hatch {
        kind: HatchKind::ObjectInAnnotation,
        offset: 14,
        span_start: 4,
        span_end: 49,
    }];
    let out = report(src, &[], &other);
    assert_eq!(out.len(), 1);
    assert_eq!((out[0].line, out[0].col), (1, 8));
}
