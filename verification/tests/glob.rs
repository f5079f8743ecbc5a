use ty_async::glob::glob_match;

#[test]
fn star_crosses_dots() {
    assert!(glob_match(b"stripe.*", b"stripe.Customer.create"));
    assert!(glob_match(b"*.load_data", b"self.db.load_data"));
    assert!(glob_match(b"*", b""));
    assert!(glob_match(b"*", b"a.b.c"));
}

#[test]
fn anchored_at_both_ends() {
    assert!(!glob_match(b"*.load_data", b"load_data"));
    assert!(glob_match(b"markdownify", b"markdownify"));
    assert!(!glob_match(b"markdownify", b"markdownify.x"));
    assert!(!glob_match(b"markdownify", b"x.markdownify"));
    assert!(glob_match(b"", b""));
    assert!(!glob_match(b"", b"a"));
}

#[test]
fn question_mark_is_one_byte() {
    assert!(glob_match(b"a?c", b"abc"));
    assert!(!glob_match(b"a?c", b"ac"));
    assert!(!glob_match(b"a?c", b"abbc"));
    assert!(glob_match(b"?", &[1u8]));
}

#[test]
fn backtracking_over_several_stars() {
    assert!(glob_match(b"a*b*c", b"aXbYbZc"));
    assert!(!glob_match(b"a*b*c", b"aXbYbZ"));
    assert!(glob_match(b"*a*a", b"aaaa"));
    assert!(glob_match(b"**", b"xyz"));
    assert!(glob_match(b"stripe.bar2.*", b"stripe.bar2.baz(...)"));
}

#[test]
fn star_in_text_is_matched_like_any_byte() {
    assert!(glob_match(b"*x", b"*ax"));
    assert!(glob_match(b"*", b"*"));
}

#[test]
fn placeholder_only_matches_wildcards() {
    assert!(glob_match(b"*", &[1u8]));
    assert!(glob_match(b"*.run", &[1u8, b'.', b'r', b'u', b'n']));
    assert!(!glob_match(b"a.run", &[1u8, b'.', b'r', b'u', b'n']));
}

#[test]
fn stdlib_preset_leaves_cheap_and_generic_calls_alone() {
    let preset = ty_async::preset::stdlib_preset();
    let quiet = [
        "os.stat", "os.listdir", "os.mkdir", "os.path.join", "os.path.exists", "f.read", "sock.recv",
        "lock.acquire", "event.wait", "d.get",
    ];
    for name in quiet {
        assert!(preset.iter().all(|p| !glob_match(&p.glob, name.as_bytes())), "{name}");
    }
    let blocking = [
        "time.sleep", "input", "open", "subprocess.run", "os.system", "os.spawnlp", "os.waitpid",
        "pathlib.Path(...).read_text", "shutil.copytree", "socket.getaddrinfo", "sqlite3.connect",
        "urllib.request.urlopen", "http.client.HTTPConnection",
    ];
    for name in blocking {
        assert!(preset.iter().any(|p| glob_match(&p.glob, name.as_bytes())), "{name}");
    }
}
