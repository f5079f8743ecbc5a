use ty_async::order::{compare_findings, sort_located, Located, PathPart};

fn path(parts: &[&str]) -> Vec<PathPart> {
    parts
        .iter()
        .map(|p| match *p {
            "/" => PathPart::RootDir,
            "." => PathPart::CurDir,
            ".." => PathPart::ParentDir,
            n => PathPart::Normal(n.as_bytes().to_vec()),
        })
        .collect()
}

fn at(parts: &[&str], line: usize, col: u64, msg: &str) -> Located {
    Located { path: path(parts), line, col, message: msg.as_bytes().to_vec() }
}

#[test]
fn paths_compare_by_component() {
    // "a/b" sorts before "a.b": the component "a" is a prefix of "a.b".
    let v = vec![at(&["a.b"], 1, 1, "x"), at(&["a", "b"], 1, 1, "x")];
    assert_eq!(sort_located(&v), vec![1, 0]);
    assert_eq!(compare_findings(&v[1], &v[0]), -1);
}

#[test]
fn lines_and_columns_compare_as_numbers() {
    let v = vec![
        at(&["t.py"], 10, 1, "m"),
        at(&["t.py"], 9, 5, "m"),
        at(&["t.py"], 9, 12, "m"),
        at(&["s.py"], 100, 1, "m"),
    ];
    assert_eq!(sort_located(&v), vec![3, 1, 2, 0]);
}

#[test]
fn equal_findings_keep_their_order() {
    let v = vec![
        at(&["t.py"], 1, 1, "b"),
        at(&["t.py"], 1, 1, "a"),
        at(&["t.py"], 1, 1, "b"),
        at(&["t.py"], 1, 1, "a"),
    ];
    assert_eq!(sort_located(&v), vec![1, 3, 0, 2]);
}

#[test]
fn root_and_current_dir_sort_first() {
    let v = vec![at(&["x"], 1, 1, "m"), at(&[".", "x"], 1, 1, "m"), at(&["/", "x"], 1, 1, "m")];
    assert_eq!(sort_located(&v), vec![2, 1, 0]);
    assert_eq!(sort_located(&vec![]), Vec::<usize>::new());
}
