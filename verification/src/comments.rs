//! Suppression comments: `# noqa` / `# noqa: ASYNC200` for ASYNC200 and
//! `# lint-ignore: a,b` for the type escape hatch rules.
//!
//! Lines are UTF-8 byte strings. Whitespace is what `char::is_whitespace`
//! calls whitespace, recognised by its UTF-8 encoding.
use vstd::prelude::*;
use vstd::string::StringSliceAdditionalSpecFns;
use crate::bytes::starts_with_at;

verus! {

/// An ASCII byte that `char::is_whitespace` accepts: tab, line feed, vertical
/// tab, form feed, carriage return, space.
pub open spec fn is_ascii_ws(b: u8) -> bool {
    (9 <= b && b <= 13) || b == 32
}

/// The three-byte UTF-8 encodings of U+1680, U+2000..=U+200A, U+2028, U+2029,
/// U+202F, U+205F and U+3000.
pub open spec fn is_ws3(a: u8, b: u8, c: u8) -> bool {
    ||| (a == 0xe1 && b == 0x9a && c == 0x80)
    ||| (a == 0xe2 && b == 0x80 && ((0x80 <= c && c <= 0x8a) || c == 0xa8 || c == 0xa9 || c
        == 0xaf))
    ||| (a == 0xe2 && b == 0x81 && c == 0x9f)
    ||| (a == 0xe3 && b == 0x80 && c == 0x80)
}

/// The two-byte UTF-8 encodings of U+0085 and U+00A0.
pub open spec fn is_ws2(a: u8, b: u8) -> bool {
    a == 0xc2 && (b == 0x85 || b == 0xa0)
}

/// The length of the whitespace character that starts at `s[i]` and ends by
/// `hi`, or 0 when there is none.
pub open spec fn ws_len_at(s: Seq<u8>, i: int, hi: int) -> int {
    if 0 <= i && i + 1 <= hi && hi <= s.len() && is_ascii_ws(s[i]) {
        1
    } else if 0 <= i && i + 2 <= hi && hi <= s.len() && is_ws2(s[i], s[i + 1]) {
        2
    } else if 0 <= i && i + 3 <= hi && hi <= s.len() && is_ws3(s[i], s[i + 1], s[i + 2]) {
        3
    } else {
        0
    }
}

/// The length of the whitespace character that ends just before `s[j]` and
/// starts at or after `lo`, or 0 when there is none.
pub open spec fn ws_len_before(s: Seq<u8>, lo: int, j: int) -> int {
    if 0 <= lo && lo + 1 <= j && j <= s.len() && is_ascii_ws(s[j - 1]) {
        1
    } else if 0 <= lo && lo + 2 <= j && j <= s.len() && is_ws2(s[j - 2], s[j - 1]) {
        2
    } else if 0 <= lo && lo + 3 <= j && j <= s.len() && is_ws3(s[j - 3], s[j - 2], s[j - 1]) {
        3
    } else {
        0
    }
}

/// Where `s[lo..hi]` starts once leading whitespace is trimmed.
pub open spec fn trim_start_at(s: Seq<u8>, lo: int, hi: int) -> int
    decreases hi - lo,
{
    let k = ws_len_at(s, lo, hi);
    if k > 0 {
        trim_start_at(s, lo + k, hi)
    } else {
        lo
    }
}

/// Where `s[lo..hi]` ends once trailing whitespace is trimmed.
pub open spec fn trim_end_at(s: Seq<u8>, lo: int, hi: int) -> int
    decreases hi - lo,
{
    let k = ws_len_before(s, lo, hi);
    if k > 0 {
        trim_end_at(s, lo, hi - k)
    } else {
        hi
    }
}

/// `s[lo..hi]` with whitespace trimmed at both ends.
pub open spec fn trimmed(s: Seq<u8>, lo: int, hi: int) -> Seq<u8> {
    let a = trim_start_at(s, lo, hi);
    s.subrange(a, trim_end_at(s, a, hi))
}

/// The first index at or after `i` (and before `hi`) of a byte in `seps`, or `hi`.
pub open spec fn next_sep(s: Seq<u8>, i: int, hi: int, seps: Seq<u8>) -> int
    decreases hi - i,
{
    if i >= hi {
        hi
    } else if seps.contains(s[i]) {
        i
    } else {
        next_sep(s, i + 1, hi, seps)
    }
}

/// `next_sep` lies between where the search starts and `hi`.
pub proof fn lemma_next_sep_bounds(s: Seq<u8>, i: int, hi: int, seps: Seq<u8>)
    requires
        i <= hi,
    ensures
        i <= next_sep(s, i, hi, seps) <= hi,
    decreases hi - i,
{
    if i < hi && !seps.contains(s[i]) {
        lemma_next_sep_bounds(s, i + 1, hi, seps);
    }
}

/// Some piece of `s[lo..hi]`, split at every byte in `seps`, equals `word` once
/// trimmed.
pub open spec fn some_piece_trims_to(s: Seq<u8>, lo: int, hi: int, seps: Seq<u8>, word: Seq<u8>) -> bool
    decreases hi - lo,
{
    if lo > hi {
        false
    } else {
        let b = next_sep(s, lo, hi, seps);
        proof {
            lemma_next_sep_bounds(s, lo, hi, seps);
        }
        trimmed(s, lo, b) == word || (b < hi && some_piece_trims_to(s, b + 1, hi, seps, word))
    }
}

/// The length of the whitespace character at `s[i]` (ending by `hi`), or 0.
pub fn ws_len(s: &[u8], i: usize, hi: usize) -> (r: usize)
    requires
        i <= hi <= s.len(),
    ensures
        r == ws_len_at(s@, i as int, hi as int),
{
    let n = hi - i;
    if n >= 1 && ((9 <= s[i] && s[i] <= 13) || s[i] == 32) {
        1
    } else if n >= 2 && s[i] == 0xc2 && (s[i + 1] == 0x85 || s[i + 1] == 0xa0) {
        2
    } else if n >= 3 && ws3(s[i], s[i + 1], s[i + 2]) {
        3
    } else {
        0
    }
}

fn ws3(a: u8, b: u8, c: u8) -> (r: bool)
    ensures
        r == is_ws3(a, b, c),
{
    (a == 0xe1 && b == 0x9a && c == 0x80) || (a == 0xe2 && b == 0x80 && ((0x80 <= c && c <= 0x8a)
        || c == 0xa8 || c == 0xa9 || c == 0xaf)) || (a == 0xe2 && b == 0x81 && c == 0x9f) || (a
        == 0xe3 && b == 0x80 && c == 0x80)
}

/// The length of the whitespace character that ends just before `s[j]` and
/// starts at or after `lo`, or 0.
pub fn ws_len_back(s: &[u8], lo: usize, j: usize) -> (r: usize)
    requires
        lo <= j <= s.len(),
    ensures
        r == ws_len_before(s@, lo as int, j as int),
{
    let n = j - lo;
    if n >= 1 && ((9 <= s[j - 1] && s[j - 1] <= 13) || s[j - 1] == 32) {
        1
    } else if n >= 2 && s[j - 2] == 0xc2 && (s[j - 1] == 0x85 || s[j - 1] == 0xa0) {
        2
    } else if n >= 3 && ws3(s[j - 3], s[j - 2], s[j - 1]) {
        3
    } else {
        0
    }
}

/// Where `s[lo..hi]` starts once leading whitespace is trimmed.
pub fn trim_start(s: &[u8], lo: usize, hi: usize) -> (r: usize)
    requires
        lo <= hi <= s.len(),
    ensures
        r == trim_start_at(s@, lo as int, hi as int),
        lo <= r <= hi,
{
    let mut i = lo;
    while ws_len(s, i, hi) > 0
        invariant
            lo <= i <= hi <= s.len(),
            trim_start_at(s@, lo as int, hi as int) == trim_start_at(s@, i as int, hi as int),
        decreases hi - i,
    {
        i = i + ws_len(s, i, hi);
    }
    i
}

/// Where `s[lo..hi]` ends once trailing whitespace is trimmed.
pub fn trim_end(s: &[u8], lo: usize, hi: usize) -> (r: usize)
    requires
        lo <= hi <= s.len(),
    ensures
        r == trim_end_at(s@, lo as int, hi as int),
        lo <= r <= hi,
{
    let mut j = hi;
    while ws_len_back(s, lo, j) > 0
        invariant
            lo <= j <= hi <= s.len(),
            trim_end_at(s@, lo as int, hi as int) == trim_end_at(s@, lo as int, j as int),
        decreases j - lo,
    {
        j = j - ws_len_back(s, lo, j);
    }
    j
}

/// Whether `s[lo..hi]`, trimmed, equals `word`.
pub fn trims_to(s: &[u8], lo: usize, hi: usize, word: &[u8]) -> (r: bool)
    requires
        lo <= hi <= s.len(),
    ensures
        r == (trimmed(s@, lo as int, hi as int) == word@),
{
    let a = trim_start(s, lo, hi);
    let b = trim_end(s, a, hi);
    if b - a != word.len() {
        return false;
    }
    let r = starts_with_at(s, a, word);
    assert(r == (s@.subrange(a as int, b as int) == word@));
    r
}

/// The first index at or after `i` (and before `hi`) of a byte in `seps`, or `hi`.
pub fn find_sep(s: &[u8], i: usize, hi: usize, seps: &[u8]) -> (r: usize)
    requires
        i <= hi <= s.len(),
    ensures
        r == next_sep(s@, i as int, hi as int, seps@),
        i <= r <= hi,
{
    let mut k = i;
    while k < hi && !contains(seps, s[k])
        invariant
            i <= k <= hi <= s.len(),
            next_sep(s@, i as int, hi as int, seps@) == next_sep(s@, k as int, hi as int, seps@),
        decreases hi - k,
    {
        k = k + 1;
    }
    k
}

/// Whether `b` occurs in `set`.
pub fn contains(set: &[u8], b: u8) -> (r: bool)
    ensures
        r == set@.contains(b),
{
    let mut i: usize = 0;
    while i < set.len()
        invariant
            i <= set.len(),
            forall|k: int| 0 <= k < i ==> set@[k] != b,
        decreases set.len() - i,
    {
        if set[i] == b {
            assert(set@[i as int] == b);
            return true;
        }
        i = i + 1;
    }
    false
}

/// Whether some piece of `s[lo..hi]`, split at every byte in `seps`, equals
/// `word` once trimmed.
pub fn any_piece_trims_to(s: &[u8], lo: usize, hi: usize, seps: &[u8], word: &[u8]) -> (r: bool)
    requires
        lo <= hi <= s.len(),
    ensures
        r == some_piece_trims_to(s@, lo as int, hi as int, seps@, word@),
{
    let mut a = lo;
    loop
        invariant
            lo <= a <= hi <= s.len(),
            some_piece_trims_to(s@, lo as int, hi as int, seps@, word@) == some_piece_trims_to(
                s@,
                a as int,
                hi as int,
                seps@,
                word@,
            ),
        decreases hi - a,
    {
        let b = find_sep(s, a, hi, seps);
        if trims_to(s, a, b, word) {
            return true;
        }
        if b >= hi {
            return false;
        }
        a = b + 1;
    }
}

/// An ASCII letter or digit.
pub open spec fn is_ascii_alnum(b: u8) -> bool {
    (0x30 <= b && b <= 0x39) || (0x41 <= b && b <= 0x5a) || (0x61 <= b && b <= 0x7a)
}

/// `b` with an ASCII capital letter turned into its small letter.
pub open spec fn ascii_lower(b: u8) -> u8 {
    if 0x41 <= b && b <= 0x5a {
        (b + 32) as u8
    } else {
        b
    }
}

/// `s` with every ASCII capital letter turned into its small letter.
pub open spec fn lowered(s: Seq<u8>) -> Seq<u8> {
    s.map_values(|b: u8| ascii_lower(b))
}

/// The first index at or after `i` whose byte is neither a space nor `#`.
pub open spec fn skip_space_hash(s: Seq<u8>, i: int) -> int
    decreases s.len() - i,
{
    if 0 <= i < s.len() && (s[i] == ' ' as u8 || s[i] == '#' as u8) {
        skip_space_hash(s, i + 1)
    } else {
        i
    }
}

/// The bytes that separate the codes of a `# noqa:` comment.
pub open spec fn noqa_code_separators() -> Seq<u8> {
    seq![',' as u8, ' ' as u8, '\t' as u8, ';' as u8]
}

/// The comment that starts at the `#` at `l[i]` of a lowercased line
/// suppresses ASYNC200: after spaces and further `#`s comes `noqa`, and then
/// either nothing but whitespace, a `:` and a code list (up to the next `#`)
/// that holds `async200`, or a byte that is not an ASCII letter or digit.
pub open spec fn noqa_after_hash(l: Seq<u8>, i: int) -> bool {
    let r = skip_space_hash(l, i + 1);
    let w = "noqa".spec_bytes();
    &&& r + w.len() <= l.len()
    &&& l.subrange(r, r + w.len()) == w
    &&& {
        let t = trim_start_at(l, r + w.len(), l.len() as int);
        if t >= l.len() {
            true
        } else if l[t] == ':' as u8 {
            some_piece_trims_to(
                l,
                t + 1,
                next_sep(l, t + 1, l.len() as int, seq!['#' as u8]),
                noqa_code_separators(),
                "async200".spec_bytes(),
            )
        } else {
            !is_ascii_alnum(l[t])
        }
    }
}

/// Some `#` of the line, compared without regard to ASCII case, starts a
/// comment that suppresses ASYNC200.
pub open spec fn spec_noqa_suppresses(line: Seq<u8>) -> bool {
    let l = lowered(line);
    exists|i: int| 0 <= i < l.len() && l[i] == '#' as u8 && #[trigger] noqa_after_hash(l, i)
}

/// `line` with every ASCII capital letter turned into its small letter.
pub fn to_ascii_lowercase(line: &[u8]) -> (r: Vec<u8>)
    ensures
        r@ == lowered(line@),
{
    let mut out: Vec<u8> = Vec::new();
    let mut i: usize = 0;
    while i < line.len()
        invariant
            i <= line.len(),
            out@ == lowered(line@.take(i as int)),
        decreases line.len() - i,
    {
        let b = line[i];
        let lb = if 0x41 <= b && b <= 0x5a {
            b + 32
        } else {
            b
        };
        out.push(lb);
        assert(lowered(line@.take(i + 1)) =~= lowered(line@.take(i as int)).push(lb));
        i = i + 1;
    }
    assert(line@.take(line.len() as int) =~= line@);
    out
}

/// Whether `b` is an ASCII letter or digit.
pub fn ascii_alnum(b: u8) -> (r: bool)
    ensures
        r == is_ascii_alnum(b),
{
    (0x30 <= b && b <= 0x39) || (0x41 <= b && b <= 0x5a) || (0x61 <= b && b <= 0x7a)
}

fn noqa_at(l: &[u8], i: usize) -> (r: bool)
    requires
        i < l.len(),
    ensures
        r == noqa_after_hash(l@, i as int),
{
    let mut r = i + 1;
    while r < l.len() && (l[r] == ' ' as u8 || l[r] == '#' as u8)
        invariant
            i + 1 <= r <= l.len(),
            skip_space_hash(l@, i + 1) == skip_space_hash(l@, r as int),
        decreases l.len() - r,
    {
        r = r + 1;
    }
    let w = "noqa".as_bytes();
    if !starts_with_at(l, r, w) {
        return false;
    }
    let t = trim_start(l, r + w.len(), l.len());
    if t >= l.len() {
        return true;
    }
    if l[t] == ':' as u8 {
        let hash: [u8; 1] = ['#' as u8];
        let end = find_sep(l, t + 1, l.len(), hash.as_slice());
        assert(hash@ =~= seq!['#' as u8]);
        let seps: [u8; 4] = [',' as u8, ' ' as u8, '\t' as u8, ';' as u8];
        assert(seps@ =~= noqa_code_separators());
        any_piece_trims_to(l, t + 1, end, seps.as_slice(), "async200".as_bytes())
    } else {
        !ascii_alnum(l[t])
    }
}

/// Whether a `# noqa` comment on this line suppresses ASYNC200: a bare
/// `# noqa`, one followed by a byte that is not an ASCII letter or digit, or
/// `# noqa: ...` whose code list holds `ASYNC200` (in any case).
pub fn noqa_suppresses(line: &[u8]) -> (r: bool)
    ensures
        r == spec_noqa_suppresses(line@),
{
    let lower = to_ascii_lowercase(line);
    let mut i: usize = 0;
    while i < lower.len()
        invariant
            i <= lower.len(),
            lower@ == lowered(line@),
            forall|k: int| 0 <= k < i ==> !(lower@[k] == '#' as u8 && #[trigger] noqa_after_hash(lower@, k)),
        decreases lower.len() - i,
    {
        if lower[i] == '#' as u8 && noqa_at(lower.as_slice(), i) {
            return true;
        }
        i = i + 1;
    }
    false
}

/// A byte that a `# lint-ignore:` code list may hold: an ASCII letter or
/// digit, `_`, `,`, `-` or ASCII whitespace.
pub open spec fn is_list_byte(b: u8) -> bool {
    is_ascii_alnum(b) || b == '_' as u8 || b == ',' as u8 || b == '-' as u8 || is_ascii_ws(b)
}

/// The end of the code list that starts at `s[i]`: the longest run of list
/// bytes and non-ASCII whitespace characters before `hi`.
pub open spec fn list_end(s: Seq<u8>, i: int, hi: int) -> int
    decreases hi - i,
{
    if 0 <= i < hi && hi <= s.len() && is_list_byte(s[i]) {
        list_end(s, i + 1, hi)
    } else {
        let k = ws_len_at(s, i, hi);
        if k > 1 {
            list_end(s, i + k, hi)
        } else {
            i
        }
    }
}

/// The comment that starts at the `#` at `s[i]` is `lint-ignore:` (after
/// whitespace) followed by a code list, split at `,`, of which one code, once
/// trimmed, is `code`.
pub open spec fn lint_ignore_after_hash(s: Seq<u8>, i: int, code: Seq<u8>) -> bool {
    let r = trim_start_at(s, i + 1, s.len() as int);
    let w = "lint-ignore:".spec_bytes();
    &&& r + w.len() <= s.len()
    &&& s.subrange(r, r + w.len()) == w
    &&& some_piece_trims_to(
        s,
        r + w.len(),
        list_end(s, r + w.len(), s.len() as int),
        seq![',' as u8],
        code,
    )
}

/// Some `#` of the line starts a `lint-ignore:` comment that lists `code`.
pub open spec fn spec_lint_ignored(line: Seq<u8>, code: Seq<u8>) -> bool {
    exists|i: int|
        0 <= i < line.len() && line[i] == '#' as u8 && #[trigger] lint_ignore_after_hash(line, i, code)
}

fn list_end_at(s: &[u8], i: usize) -> (r: usize)
    requires
        i <= s.len(),
    ensures
        r == list_end(s@, i as int, s@.len() as int),
        i <= r <= s.len(),
{
    let mut k = i;
    loop
        invariant
            i <= k <= s.len(),
            list_end(s@, i as int, s@.len() as int) == list_end(s@, k as int, s@.len() as int),
        decreases s.len() - k,
    {
        if k < s.len() {
            let b = s[k];
            if ascii_alnum(b) || b == '_' as u8 || b == ',' as u8 || b == '-' as u8 || (9 <= b
                && b <= 13) || b == 32 {
                k = k + 1;
                continue;
            }
        }
        let w = ws_len(s, k, s.len());
        if w > 1 {
            k = k + w;
        } else {
            return k;
        }
    }
}

fn lint_ignore_at(s: &[u8], i: usize, code: &[u8]) -> (r: bool)
    requires
        i < s.len(),
    ensures
        r == lint_ignore_after_hash(s@, i as int, code@),
{
    let r = trim_start(s, i + 1, s.len());
    let w = "lint-ignore:".as_bytes();
    if !starts_with_at(s, r, w) {
        return false;
    }
    let a = r + w.len();
    let e = list_end_at(s, a);
    let comma: [u8; 1] = [',' as u8];
    assert(comma@ =~= seq![',' as u8]);
    any_piece_trims_to(s, a, e, comma.as_slice(), code)
}

/// Whether `code` is listed in a `# lint-ignore: a,b` comment on this line.
pub fn lint_ignored(line: &[u8], code: &[u8]) -> (r: bool)
    ensures
        r == spec_lint_ignored(line@, code@),
{
    let mut i: usize = 0;
    while i < line.len()
        invariant
            i <= line.len(),
            forall|k: int|
                0 <= k < i ==> !(line@[k] == '#' as u8 && #[trigger] lint_ignore_after_hash(line@, k, code@)),
        decreases line.len() - i,
    {
        if line[i] == '#' as u8 && lint_ignore_at(line, i, code) {
            return true;
        }
        i = i + 1;
    }
    false
}

/// The bytes of an ASCII string literal are its characters.
proof fn lemma_ascii_bytes(s: &str)
    requires
        vstd::string::is_ascii(s),
    ensures
        s.spec_bytes() == s@.map_values(|c: char| c as u8),
{
    broadcast use vstd::string::is_ascii_spec_bytes;
    assert(s.spec_bytes() =~= s@.map_values(|c: char| c as u8));
}

/// The bytes `# noqa`.
pub open spec fn bare_noqa() -> Seq<u8> {
    seq!['#' as u8, ' ' as u8, 'n' as u8, 'o' as u8, 'q' as u8, 'a' as u8]
}

/// A line that ends in `# noqa` has ASYNC200 suppressed, whatever comes before.
pub proof fn law_bare_noqa_suppresses(code: Seq<u8>)
    ensures
        spec_noqa_suppresses(code + bare_noqa()),
{
    let line = code + bare_noqa();
    let l = lowered(line);
    let i = code.len() as int;
    reveal_strlit("noqa");
    assert(vstd::string::is_ascii("noqa"));
    lemma_ascii_bytes("noqa");
    let w = "noqa".spec_bytes();
    assert(w =~= seq!['n' as u8, 'o' as u8, 'q' as u8, 'a' as u8]);
    assert(l[i] == '#' as u8);
    assert(l[i + 1] == ' ' as u8);
    assert(l[i + 2] == 'n' as u8);
    assert(skip_space_hash(l, i + 2) == i + 2);
    assert(skip_space_hash(l, i + 1) == i + 2);
    assert(l.subrange(i + 2, i + 6) =~= w);
    assert(trim_start_at(l, i + 6, l.len() as int) == i + 6);
    assert(noqa_after_hash(l, i));
}

/// The bytes `# noqa: ASYNC200`.
pub open spec fn noqa_async200() -> Seq<u8> {
    bare_noqa() + seq![
        ':' as u8,
        ' ' as u8,
        'A' as u8,
        'S' as u8,
        'Y' as u8,
        'N' as u8,
        'C' as u8,
        '2' as u8,
        '0' as u8,
        '0' as u8,
    ]
}

/// A line that ends in `# noqa: ASYNC200` has ASYNC200 suppressed, whatever
/// comes before.
pub proof fn law_noqa_async200_suppresses(code: Seq<u8>)
    ensures
        spec_noqa_suppresses(code + noqa_async200()),
{
    let line = code + noqa_async200();
    let l = lowered(line);
    let i = code.len() as int;
    let n = l.len() as int;
    reveal_strlit("noqa");
    reveal_strlit("async200");
    assert(vstd::string::is_ascii("noqa"));
    assert(vstd::string::is_ascii("async200"));
    lemma_ascii_bytes("noqa");
    lemma_ascii_bytes("async200");
    let w = "noqa".spec_bytes();
    let word = "async200".spec_bytes();
    assert(w =~= seq!['n' as u8, 'o' as u8, 'q' as u8, 'a' as u8]);
    assert(word =~= seq!['a' as u8, 's' as u8, 'y' as u8, 'n' as u8, 'c' as u8, '2' as u8, '0' as u8, '0' as u8]);
    assert(n == i + 16);
    assert(l[i] == '#' as u8);
    assert(l[i + 1] == ' ' as u8);
    assert(l[i + 2] == 'n' as u8);
    assert(skip_space_hash(l, i + 2) == i + 2);
    assert(skip_space_hash(l, i + 1) == i + 2);
    assert(l.subrange(i + 2, i + 6) =~= w);
    assert(l[i + 6] == ':' as u8);
    assert(trim_start_at(l, i + 6, n) == i + 6);
    let hash = seq!['#' as u8];
    assert forall|k: int| i + 7 <= k < n implies !hash.contains(#[trigger] l[k]) by {
        assert(l[k] != '#' as u8);
    }
    assert(next_sep(l, i + 7, n, hash) == n) by {
        lemma_next_sep_none(l, i + 7, n, hash);
    }
    let seps = noqa_code_separators();
    assert(seps.contains(l[i + 7]));
    assert(next_sep(l, i + 7, n, seps) == i + 7);
    assert(trimmed(l, i + 7, i + 7) =~= Seq::<u8>::empty());
    assert forall|k: int| i + 8 <= k < n implies !seps.contains(#[trigger] l[k]) by {
        assert(l[k] != ',' as u8 && l[k] != ' ' as u8 && l[k] != '\t' as u8 && l[k] != ';' as u8);
    }
    assert(next_sep(l, i + 8, n, seps) == n) by {
        lemma_next_sep_none(l, i + 8, n, seps);
    }
    assert(trim_start_at(l, i + 8, n) == i + 8);
    assert(trim_end_at(l, i + 8, n) == n);
    assert(l.subrange(i + 8, n) =~= word);
    assert(some_piece_trims_to(l, i + 8, n, seps, word));
    assert(some_piece_trims_to(l, i + 7, n, seps, word));
    assert(noqa_after_hash(l, i));
}

proof fn lemma_next_sep_none(s: Seq<u8>, i: int, hi: int, seps: Seq<u8>)
    requires
        i <= hi,
        forall|k: int| i <= k < hi ==> !seps.contains(#[trigger] s[k]),
    ensures
        next_sep(s, i, hi, seps) == hi,
    decreases hi - i,
{
    if i < hi {
        lemma_next_sep_none(s, i + 1, hi, seps);
    }
}

/// The bytes `# lint-ignore: `.
pub open spec fn lint_ignore_prefix() -> Seq<u8> {
    seq![
        '#' as u8,
        ' ' as u8,
        'l' as u8,
        'i' as u8,
        'n' as u8,
        't' as u8,
        '-' as u8,
        'i' as u8,
        'g' as u8,
        'n' as u8,
        'o' as u8,
        'r' as u8,
        'e' as u8,
        ':' as u8,
        ' ' as u8,
    ]
}

proof fn lemma_list_end_all(s: Seq<u8>, i: int, hi: int)
    requires
        0 <= i <= hi <= s.len(),
        forall|k: int| i <= k < hi ==> is_list_byte(#[trigger] s[k]),
    ensures
        list_end(s, i, hi) == hi,
    decreases hi - i,
{
    if i < hi {
        lemma_list_end_all(s, i + 1, hi);
    }
}

/// A line that ends in `# lint-ignore: <rule>` suppresses that rule, whatever
/// comes before, for a rule name made of ASCII letters, digits, `_` and `-`.
pub proof fn law_lint_ignore_suppresses(code: Seq<u8>, rule: Seq<u8>)
    requires
        forall|k: int|
            0 <= k < rule.len() ==> is_ascii_alnum(#[trigger] rule[k]) || rule[k] == '_' as u8
                || rule[k] == '-' as u8,
    ensures
        spec_lint_ignored(code + lint_ignore_prefix() + rule, rule),
{
    let line = code + lint_ignore_prefix() + rule;
    let i = code.len() as int;
    let n = line.len() as int;
    reveal_strlit("lint-ignore:");
    assert(vstd::string::is_ascii("lint-ignore:"));
    lemma_ascii_bytes("lint-ignore:");
    let w = "lint-ignore:".spec_bytes();
    assert(w =~= lint_ignore_prefix().subrange(2, 14));
    assert(n == i + 15 + rule.len());
    assert(line[i] == '#' as u8);
    assert(line[i + 1] == ' ' as u8);
    assert(line[i + 2] == 'l' as u8);
    assert(trim_start_at(line, i + 2, n) == i + 2);
    assert(trim_start_at(line, i + 1, n) == i + 2);
    assert(line.subrange(i + 2, i + 14) =~= w);
    assert forall|k: int| i + 14 <= k < n implies is_list_byte(#[trigger] line[k]) by {
        if k > i + 14 {
            assert(line[k] == rule[k - i - 15]);
        }
    }
    lemma_list_end_all(line, i + 14, n);
    let comma = seq![',' as u8];
    assert forall|k: int| i + 14 <= k < n implies !comma.contains(#[trigger] line[k]) by {
        if k > i + 14 {
            assert(line[k] == rule[k - i - 15]);
        }
    }
    lemma_next_sep_none(line, i + 14, n, comma);
    assert(ws_len_at(line, i + 14, n) == 1);
    if rule.len() > 0 {
        assert(line[i + 15] == rule[0]);
        assert(trim_start_at(line, i + 15, n) == i + 15);
        assert(line[n - 1] == rule[rule.len() - 1]);
        assert(ws_len_before(line, i + 15, n) == 0);
    }
    assert(trim_start_at(line, i + 14, n) == i + 15);
    assert(trim_end_at(line, i + 15, n) == n);
    assert(line.subrange(i + 15, n) =~= rule);
    assert(some_piece_trims_to(line, i + 14, n, comma, rule));
    assert(lint_ignore_after_hash(line, i, rule));
}

} // verus!
