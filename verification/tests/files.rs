use ty_async::files::{excluded, is_python_source};

fn pats(v: &[&str]) -> Vec<Vec<u8>> {
    v.iter().map(|p| p.as_bytes().to_vec()).collect()
}

#[test]
fn exclude_by_path_directory_or_glob() {
    let ex = pats(&["src-dir/tests", "*.pyi", "gen_*"]);
    assert!(excluded(b"src-dir/tests", b"tests", &ex));
    assert!(excluded(b"src-dir/tests/a.py", b"a.py", &ex));
    assert!(!excluded(b"src-dir/tests2/a.py", b"a.py", &ex));
    assert!(excluded(b"x/stubs.pyi", b"stubs.pyi", &ex));
    assert!(excluded(b"x/gen_api.py", b"gen_api.py", &ex));
    assert!(!excluded(b"x/api.py", b"api.py", &ex));
    assert!(!excluded(b"x/api.py", b"api.py", &pats(&[])));
}

#[test]
fn python_extension() {
    assert!(is_python_source(b"a.py"));
    assert!(is_python_source(b"a.b.py"));
    assert!(is_python_source(b"..py"));
    assert!(!is_python_source(b".py"));
    assert!(!is_python_source(b"a.pyi"));
    assert!(!is_python_source(b"py"));
    assert!(!is_python_source(b"a.py.txt"));
    assert!(!is_python_source(b""));
}
