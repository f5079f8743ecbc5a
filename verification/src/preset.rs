//! The preset of standard-library blocking calls that `--async200-stdlib`
//! appends to the configured patterns: sleeping, reading input, file and
//! filesystem work, processes, blocking network and DNS lookups, databases and
//! archives. Generic method names and cheap single-syscall metadata calls are
//! left out on purpose.
use vstd::prelude::*;
use vstd::string::StringSliceAdditionalSpecFns;
use crate::checker::{first_match, first_match_from, Pattern};
use crate::glob::glob_matches;
use crate::cli::{copy_bytes, pattern_list};

verus! {

/// The globs and replacements of the preset, in order.
pub open spec fn stdlib_patterns() -> Seq<(Seq<u8>, Seq<u8>)> {
    seq![
        ("time.sleep".spec_bytes(), "asyncio.sleep()".spec_bytes()),
        ("input".spec_bytes(), "asyncio.to_thread(input)".spec_bytes()),
        ("open".spec_bytes(), "anyio.open_file()".spec_bytes()),
        ("io.open".spec_bytes(), "anyio.open_file()".spec_bytes()),
        ("os.fdopen".spec_bytes(), "anyio.open_file()".spec_bytes()),
        ("*.read_text".spec_bytes(), "anyio.Path.read_text()".spec_bytes()),
        ("*.read_bytes".spec_bytes(), "anyio.Path.read_bytes()".spec_bytes()),
        ("*.write_text".spec_bytes(), "anyio.Path.write_text()".spec_bytes()),
        ("*.write_bytes".spec_bytes(), "anyio.Path.write_bytes()".spec_bytes()),
        ("shutil.copy*".spec_bytes(), "asyncio.to_thread()".spec_bytes()),
        ("shutil.move".spec_bytes(), "asyncio.to_thread()".spec_bytes()),
        ("shutil.rmtree".spec_bytes(), "asyncio.to_thread()".spec_bytes()),
        ("shutil.make_archive".spec_bytes(), "asyncio.to_thread()".spec_bytes()),
        ("shutil.unpack_archive".spec_bytes(), "asyncio.to_thread()".spec_bytes()),
        ("os.walk".spec_bytes(), "asyncio.to_thread()".spec_bytes()),
        ("tempfile.mkstemp".spec_bytes(), "asyncio.to_thread()".spec_bytes()),
        ("tempfile.mkdtemp".spec_bytes(), "asyncio.to_thread()".spec_bytes()),
        ("tempfile.TemporaryFile".spec_bytes(), "asyncio.to_thread()".spec_bytes()),
        ("tempfile.NamedTemporaryFile".spec_bytes(), "asyncio.to_thread()".spec_bytes()),
        ("tempfile.SpooledTemporaryFile".spec_bytes(), "asyncio.to_thread()".spec_bytes()),
        ("tempfile.TemporaryDirectory".spec_bytes(), "asyncio.to_thread()".spec_bytes()),
        ("subprocess.*".spec_bytes(), "asyncio.create_subprocess_exec()".spec_bytes()),
        ("os.system".spec_bytes(), "asyncio.create_subprocess_shell()".spec_bytes()),
        ("os.popen".spec_bytes(), "asyncio.create_subprocess_shell()".spec_bytes()),
        ("os.spawn*".spec_bytes(), "asyncio.create_subprocess_exec()".spec_bytes()),
        ("os.wait*".spec_bytes(), "asyncio.to_thread()".spec_bytes()),
        ("urllib.request.urlopen".spec_bytes(), "an async HTTP client".spec_bytes()),
        ("socket.getaddrinfo".spec_bytes(), "loop.getaddrinfo()".spec_bytes()),
        ("socket.getnameinfo".spec_bytes(), "loop.getnameinfo()".spec_bytes()),
        ("socket.gethostbyname".spec_bytes(), "loop.getaddrinfo()".spec_bytes()),
        ("socket.gethostbyname_ex".spec_bytes(), "loop.getaddrinfo()".spec_bytes()),
        ("socket.gethostbyaddr".spec_bytes(), "loop.getnameinfo()".spec_bytes()),
        ("socket.getfqdn".spec_bytes(), "asyncio.to_thread()".spec_bytes()),
        ("socket.create_connection".spec_bytes(), "asyncio.open_connection()".spec_bytes()),
        ("smtplib.*".spec_bytes(), "an async SMTP client".spec_bytes()),
        ("ftplib.*".spec_bytes(), "an async FTP client".spec_bytes()),
        ("http.client.*".spec_bytes(), "an async HTTP client".spec_bytes()),
        ("sqlite3.connect".spec_bytes(), "aiosqlite.connect()".spec_bytes()),
        ("zipfile.ZipFile".spec_bytes(), "asyncio.to_thread()".spec_bytes()),
        ("tarfile.open".spec_bytes(), "asyncio.to_thread()".spec_bytes()),
        ("gzip.open".spec_bytes(), "asyncio.to_thread()".spec_bytes()),
        ("bz2.open".spec_bytes(), "asyncio.to_thread()".spec_bytes()),
        ("lzma.open".spec_bytes(), "asyncio.to_thread()".spec_bytes()),
        ("zlib.compress".spec_bytes(), "asyncio.to_thread()".spec_bytes()),
        ("zlib.decompress".spec_bytes(), "asyncio.to_thread()".spec_bytes()),
    ]
}

/// A pattern holding copies of `glob` and `replacement`.
fn pattern(glob: &[u8], replacement: &[u8]) -> (r: Pattern)
    ensures
        r.glob@ == glob@,
        r.replacement@ == replacement@,
{
    Pattern { glob: copy_bytes(glob), replacement: copy_bytes(replacement) }
}

/// The preset of standard-library blocking calls.
pub fn stdlib_preset() -> (r: Vec<Pattern>)
    ensures
        pattern_list(r@) == stdlib_patterns(),
{
    let mut v: Vec<Pattern> = Vec::new();
    v.push(pattern("time.sleep".as_bytes(), "asyncio.sleep()".as_bytes()));
    v.push(pattern("input".as_bytes(), "asyncio.to_thread(input)".as_bytes()));
    v.push(pattern("open".as_bytes(), "anyio.open_file()".as_bytes()));
    v.push(pattern("io.open".as_bytes(), "anyio.open_file()".as_bytes()));
    v.push(pattern("os.fdopen".as_bytes(), "anyio.open_file()".as_bytes()));
    v.push(pattern("*.read_text".as_bytes(), "anyio.Path.read_text()".as_bytes()));
    v.push(pattern("*.read_bytes".as_bytes(), "anyio.Path.read_bytes()".as_bytes()));
    v.push(pattern("*.write_text".as_bytes(), "anyio.Path.write_text()".as_bytes()));
    v.push(pattern("*.write_bytes".as_bytes(), "anyio.Path.write_bytes()".as_bytes()));
    v.push(pattern("shutil.copy*".as_bytes(), "asyncio.to_thread()".as_bytes()));
    v.push(pattern("shutil.move".as_bytes(), "asyncio.to_thread()".as_bytes()));
    v.push(pattern("shutil.rmtree".as_bytes(), "asyncio.to_thread()".as_bytes()));
    v.push(pattern("shutil.make_archive".as_bytes(), "asyncio.to_thread()".as_bytes()));
    v.push(pattern("shutil.unpack_archive".as_bytes(), "asyncio.to_thread()".as_bytes()));
    v.push(pattern("os.walk".as_bytes(), "asyncio.to_thread()".as_bytes()));
    v.push(pattern("tempfile.mkstemp".as_bytes(), "asyncio.to_thread()".as_bytes()));
    v.push(pattern("tempfile.mkdtemp".as_bytes(), "asyncio.to_thread()".as_bytes()));
    v.push(pattern("tempfile.TemporaryFile".as_bytes(), "asyncio.to_thread()".as_bytes()));
    v.push(pattern("tempfile.NamedTemporaryFile".as_bytes(), "asyncio.to_thread()".as_bytes()));
    v.push(pattern("tempfile.SpooledTemporaryFile".as_bytes(), "asyncio.to_thread()".as_bytes()));
    v.push(pattern("tempfile.TemporaryDirectory".as_bytes(), "asyncio.to_thread()".as_bytes()));
    v.push(pattern("subprocess.*".as_bytes(), "asyncio.create_subprocess_exec()".as_bytes()));
    v.push(pattern("os.system".as_bytes(), "asyncio.create_subprocess_shell()".as_bytes()));
    v.push(pattern("os.popen".as_bytes(), "asyncio.create_subprocess_shell()".as_bytes()));
    v.push(pattern("os.spawn*".as_bytes(), "asyncio.create_subprocess_exec()".as_bytes()));
    v.push(pattern("os.wait*".as_bytes(), "asyncio.to_thread()".as_bytes()));
    v.push(pattern("urllib.request.urlopen".as_bytes(), "an async HTTP client".as_bytes()));
    v.push(pattern("socket.getaddrinfo".as_bytes(), "loop.getaddrinfo()".as_bytes()));
    v.push(pattern("socket.getnameinfo".as_bytes(), "loop.getnameinfo()".as_bytes()));
    v.push(pattern("socket.gethostbyname".as_bytes(), "loop.getaddrinfo()".as_bytes()));
    v.push(pattern("socket.gethostbyname_ex".as_bytes(), "loop.getaddrinfo()".as_bytes()));
    v.push(pattern("socket.gethostbyaddr".as_bytes(), "loop.getnameinfo()".as_bytes()));
    v.push(pattern("socket.getfqdn".as_bytes(), "asyncio.to_thread()".as_bytes()));
    v.push(pattern("socket.create_connection".as_bytes(), "asyncio.open_connection()".as_bytes()));
    v.push(pattern("smtplib.*".as_bytes(), "an async SMTP client".as_bytes()));
    v.push(pattern("ftplib.*".as_bytes(), "an async FTP client".as_bytes()));
    v.push(pattern("http.client.*".as_bytes(), "an async HTTP client".as_bytes()));
    v.push(pattern("sqlite3.connect".as_bytes(), "aiosqlite.connect()".as_bytes()));
    v.push(pattern("zipfile.ZipFile".as_bytes(), "asyncio.to_thread()".as_bytes()));
    v.push(pattern("tarfile.open".as_bytes(), "asyncio.to_thread()".as_bytes()));
    v.push(pattern("gzip.open".as_bytes(), "asyncio.to_thread()".as_bytes()));
    v.push(pattern("bz2.open".as_bytes(), "asyncio.to_thread()".as_bytes()));
    v.push(pattern("lzma.open".as_bytes(), "asyncio.to_thread()".as_bytes()));
    v.push(pattern("zlib.compress".as_bytes(), "asyncio.to_thread()".as_bytes()));
    v.push(pattern("zlib.decompress".as_bytes(), "asyncio.to_thread()".as_bytes()));
    assert(pattern_list(v@) =~= stdlib_patterns());
    v
}

/// Where a configured pattern matches a callee, the first such configured
/// pattern is reported, whatever patterns are appended after them.
pub proof fn law_configured_patterns_win(user: Seq<Pattern>, extra: Seq<Pattern>, name: Seq<u8>)
    requires
        first_match(user, name) is Some,
    ensures
        first_match(user + extra, name) == first_match(user, name),
{
    lemma_prefix_match(user, extra, name, 0);
}

proof fn lemma_prefix_match(user: Seq<Pattern>, extra: Seq<Pattern>, name: Seq<u8>, i: int)
    requires
        0 <= i,
        first_match_from(user, name, i) is Some,
    ensures
        first_match_from(user + extra, name, i) == first_match_from(user, name, i),
    decreases user.len() - i,
{
    if i < user.len() {
        assert((user + extra)[i] == user[i]);
        if !glob_matches(user[i].glob@, name) {
            lemma_prefix_match(user, extra, name, i + 1);
        }
    }
}

} // verus!
