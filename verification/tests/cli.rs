use ty_async::cli::{parse_args, ArgError, CommandLine};

fn run(args: &[&str]) -> CommandLine {
    let v: Vec<Vec<u8>> = args.iter().map(|a| a.as_bytes().to_vec()).collect();
    parse_args(&v)
}

fn text(v: &Vec<u8>) -> String {
    String::from_utf8(v.clone()).unwrap()
}

#[test]
fn unknown_hatch_rule_is_an_error() {
    let r = run(&["--type-hatches=no-such-rule", "tests/hatches.py"]);
    match r.error {
        Some(ArgError::UnknownHatch(code)) => assert_eq!(text(&code), "no-such-rule"),
        _ => panic!("expected an unknown hatch rule"),
    }
}

#[test]
fn transitive_requires_patterns() {
    let r = run(&["--async200-transitive", "tests/transitive"]);
    assert!(matches!(r.error, Some(ArgError::TransitiveWithoutPatterns)));
    let ok = run(&["--async200-blocking-calls=stripe.*->alt()", "--async200-transitive", "tests/transitive"]);
    assert!(ok.error.is_none());
    assert!(ok.options.transitive);
}

#[test]
fn blocking_call_patterns_are_split_and_trimmed() {
    let r = run(&[
        "--async200-blocking-calls=stripe.*->alt(), stripe.bar2.* -> second() ,,ctx.storage.*->(),*.load_data->(),markdownify->()",
        "a.py",
    ]);
    assert!(r.error.is_none());
    let pats: Vec<(String, String)> =
        r.options.patterns.iter().map(|p| (text(&p.glob), text(&p.replacement))).collect();
    assert_eq!(
        pats,
        vec![
            ("stripe.*".to_string(), "alt()".to_string()),
            ("stripe.bar2.*".to_string(), "second()".to_string()),
            ("ctx.storage.*".to_string(), "()".to_string()),
            ("*.load_data".to_string(), "()".to_string()),
            ("markdownify".to_string(), "()".to_string()),
        ]
    );
    assert_eq!(r.options.paths.iter().map(text).collect::<Vec<_>>(), vec!["a.py"]);
}

#[test]
fn entry_without_arrow_is_an_error() {
    let r = run(&["--async200-blocking-calls", "a->b, c", "x.py"]);
    match r.error {
        Some(ArgError::MissingArrow(e)) => assert_eq!(text(&e), "c"),
        _ => panic!("expected a missing arrow"),
    }
    assert_eq!(r.options.patterns.len(), 1);
}

#[test]
fn flags_take_the_next_argument_as_value() {
    let r = run(&["--exclude", "build/, tests//,*.pyi", "--type-hatches", "no-any, no-object", "src"]);
    assert!(r.error.is_none());
    assert_eq!(r.options.excludes.iter().map(text).collect::<Vec<_>>(), vec!["build", "tests", "*.pyi"]);
    assert!(r.options.hatches.no_any && r.options.hatches.no_object && !r.options.hatches.no_getattr);
    assert_eq!(r.options.paths.iter().map(text).collect::<Vec<_>>(), vec!["src"]);
}

#[test]
fn no_path_means_the_current_directory() {
    let r = run(&["--type-hatches=no-getattr"]);
    assert_eq!(r.options.paths.iter().map(text).collect::<Vec<_>>(), vec!["."]);
}

#[test]
fn ignored_and_unsupported_flags() {
    let r = run(&["--ignore=E501", "--ignore", "W1", "--asyncio", "--verbose", "-x", "f.py"]);
    assert!(r.error.is_none());
    assert_eq!(r.options.notes.iter().map(text).collect::<Vec<_>>(), vec!["--verbose", "-x"]);
    assert_eq!(r.options.paths.iter().map(text).collect::<Vec<_>>(), vec!["f.py"]);
}

#[test]
fn empty_exclude_value_gives_an_empty_pattern() {
    let r = run(&["--exclude="]);
    assert_eq!(r.options.excludes.iter().map(text).collect::<Vec<_>>(), vec![""]);
}

#[test]
fn stdlib_preset_is_appended_after_configured_patterns() {
    let r = run(&["--async200-stdlib", "--async200-blocking-calls=time.sleep->trio.sleep()", "a.py"]);
    assert!(r.error.is_none());
    let pats: Vec<(String, String)> =
        r.options.patterns.iter().map(|p| (text(&p.glob), text(&p.replacement))).collect();
    assert_eq!(pats.len(), 46);
    assert_eq!(pats[0], ("time.sleep".to_string(), "trio.sleep()".to_string()));
    assert_eq!(pats[1], ("time.sleep".to_string(), "asyncio.sleep()".to_string()));
    assert_eq!(pats[45], ("zlib.decompress".to_string(), "asyncio.to_thread()".to_string()));
    assert!(r.options.stdlib);
}

#[test]
fn stdlib_preset_is_enough_for_transitive_mode() {
    let r = run(&["--async200-stdlib", "--async200-transitive", "src"]);
    assert!(r.error.is_none());
    assert_eq!(r.options.patterns.len(), 45);
}
