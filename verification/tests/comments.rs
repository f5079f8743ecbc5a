use ty_async::comments::{lint_ignored, noqa_suppresses};

#[test]
fn bare_noqa_suppresses() {
    assert!(noqa_suppresses(b"x = foo()  # noqa"));
    assert!(noqa_suppresses(b"x = foo()  # noqa   "));
    assert!(noqa_suppresses(b"x = foo()  ## noqa"));
    assert!(noqa_suppresses(b"x = foo()  #noqa"));
}

#[test]
fn noqa_codes_are_case_insensitive() {
    assert!(noqa_suppresses(b"x  # NOQA: ASYNC200"));
    assert!(noqa_suppresses(b"x  # noqa: async200"));
    assert!(noqa_suppresses(b"x  # noqa:E501,ASYNC200"));
    assert!(noqa_suppresses(b"x  # noqa: E501 ASYNC200"));
    assert!(noqa_suppresses(b"x  # noqa: E501;ASYNC200"));
    assert!(noqa_suppresses(b"x # noqa : ASYNC200"));
    assert!(noqa_suppresses(b"x  # noqa: ASYNC200 # why"));
}

#[test]
fn noqa_for_other_codes_does_not_suppress() {
    assert!(!noqa_suppresses(b"x  # noqa: E501"));
    assert!(!noqa_suppresses(b"x  # noqa: ASYNC2000"));
    assert!(!noqa_suppresses(b"x # noqa: E1 # ASYNC200"));
    assert!(!noqa_suppresses(b"x = foo()"));
    assert!(!noqa_suppresses(b"x  # noqanything"));
    assert!(!noqa_suppresses(b"x  # see noqa"));
}

#[test]
fn noqa_followed_by_punctuation_suppresses() {
    assert!(noqa_suppresses(b"x  # noqa-foo"));
    assert!(noqa_suppresses(b"x  # noqa, reason"));
}

#[test]
fn noqa_with_unicode_whitespace() {
    assert!(noqa_suppresses(b"x # noqa\xc2\xa0"));
    assert!(noqa_suppresses(b"x # noqa:\xe3\x80\x80ASYNC200\xe2\x80\x83"));
    assert!(noqa_suppresses(b"x # noqa \xe3\x80\x80: ASYNC200"));
}

#[test]
fn lint_ignore_lists_codes() {
    assert!(lint_ignored(b"def f(x: Any):  # lint-ignore: no-any", b"no-any"));
    assert!(!lint_ignored(b"def f(x: Any):  # lint-ignore: no-any", b"no-object"));
    assert!(lint_ignored(b"# lint-ignore: no-any,no-getattr", b"no-getattr"));
    assert!(lint_ignored(b"# lint-ignore: no-any , no-getattr ", b"no-getattr"));
    assert!(lint_ignored(b"#lint-ignore:no-any", b"no-any"));
}

#[test]
fn lint_ignore_list_stops_at_other_characters() {
    assert!(lint_ignored(b"# lint-ignore: no-any. reasons", b"no-any"));
    assert!(!lint_ignored(b"# lint-ignore: no-any because reasons", b"no-any"));
    assert!(!lint_ignored(b"# LINT-IGNORE: no-any", b"no-any"));
    assert!(!lint_ignored(b"x = 1", b"no-any"));
    assert!(lint_ignored(b"# x # lint-ignore: no-object", b"no-object"));
}
