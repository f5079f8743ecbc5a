//! fnmatch-style glob matching over bytes.
//!
//! `*` matches any run of bytes (including `.`), `?` matches exactly one byte,
//! every other byte matches itself. A pattern is anchored at both ends.
use vstd::prelude::*;

verus! {

/// The byte `*`.
pub const STAR: u8 = 0x2a;

/// The byte `?`.
pub const QUESTION: u8 = 0x3f;

/// `pat[i..]` matches `text[j..]`.
pub open spec fn glob_from(pat: Seq<u8>, text: Seq<u8>, i: int, j: int) -> bool
    decreases pat.len() - i, text.len() - j,
{
    if i >= pat.len() {
        j >= text.len()
    } else if pat[i] == STAR {
        glob_from(pat, text, i + 1, j) || (j < text.len() && glob_from(pat, text, i, j + 1))
    } else {
        j < text.len() && (pat[i] == QUESTION || pat[i] == text[j]) && glob_from(
            pat,
            text,
            i + 1,
            j + 1,
        )
    }
}

/// The whole of `pat` matches the whole of `text`.
pub open spec fn glob_matches(pat: Seq<u8>, text: Seq<u8>) -> bool {
    glob_from(pat, text, 0, 0)
}

/// `pat[i..i + len]` holds no `*` and matches `text[j..j + len]` byte by byte.
spec fn literal_run(pat: Seq<u8>, text: Seq<u8>, i: int, j: int, len: int) -> bool {
    forall|d: int|
        0 <= d < len ==> pat[i + d] != STAR && (pat[i + d] == QUESTION || #[trigger] pat[i + d]
            == text[j + d])
}

/// `pat[i..i + len]` holds no `*`.
spec fn star_free(pat: Seq<u8>, i: int, len: int) -> bool {
    forall|d: int| 0 <= d < len ==> #[trigger] pat[i + d] != STAR
}

proof fn lemma_literal_shift(pat: Seq<u8>, text: Seq<u8>, i: int, j: int, len: int)
    requires
        0 <= i,
        0 <= j,
        0 <= len,
        i + len <= pat.len(),
        j + len <= text.len(),
        literal_run(pat, text, i, j, len),
    ensures
        glob_from(pat, text, i, j) == glob_from(pat, text, i + len, j + len),
    decreases len,
{
    if len > 0 {
        assert(pat[i + 0] != STAR && (pat[i + 0] == QUESTION || pat[i + 0] == text[j + 0]));
        assert(literal_run(pat, text, i + 1, j + 1, len - 1)) by {
            assert forall|d: int| 0 <= d < len - 1 implies pat[i + 1 + d] != STAR && (pat[i + 1
                + d] == QUESTION || #[trigger] pat[i + 1 + d] == text[j + 1 + d]) by {
                assert(pat[i + (d + 1)] != STAR && (pat[i + (d + 1)] == QUESTION || pat[i + (d
                    + 1)] == text[j + (d + 1)]));
            }
        }
        lemma_literal_shift(pat, text, i + 1, j + 1, len - 1);
    }
}

proof fn lemma_star_free_needs(pat: Seq<u8>, text: Seq<u8>, i: int, k: int, len: int)
    requires
        0 <= i,
        0 <= k <= text.len(),
        0 <= len,
        i + len <= pat.len(),
        star_free(pat, i, len),
        glob_from(pat, text, i, k),
    ensures
        k + len <= text.len(),
        glob_from(pat, text, i + len, k + len),
    decreases len,
{
    if len > 0 {
        assert(pat[i + 0] != STAR);
        assert(star_free(pat, i + 1, len - 1)) by {
            assert forall|d: int| 0 <= d < len - 1 implies #[trigger] pat[i + 1 + d] != STAR by {
                assert(pat[i + (d + 1)] != STAR);
            }
        }
        lemma_star_free_needs(pat, text, i + 1, k + 1, len - 1);
    }
}

proof fn lemma_star_expand(pat: Seq<u8>, text: Seq<u8>, i: int, j: int)
    requires
        0 <= i < pat.len(),
        pat[i] == STAR,
        0 <= j <= text.len(),
    ensures
        glob_from(pat, text, i, j) == exists|k: int|
            j <= k <= text.len() && #[trigger] glob_from(pat, text, i + 1, k),
    decreases text.len() - j,
{
    if j < text.len() {
        lemma_star_expand(pat, text, i, j + 1);
        if glob_from(pat, text, i, j) {
            if glob_from(pat, text, i + 1, j) {
                assert(j <= j <= text.len() && glob_from(pat, text, i + 1, j));
            } else {
                let k = choose|k: int| j + 1 <= k <= text.len() && #[trigger] glob_from(pat, text, i + 1, k);
                assert(j <= k <= text.len() && glob_from(pat, text, i + 1, k));
            }
        }
        if exists|k: int| j <= k <= text.len() && #[trigger] glob_from(pat, text, i + 1, k) {
            let k = choose|k: int| j <= k <= text.len() && #[trigger] glob_from(pat, text, i + 1, k);
            if k > j {
                assert(j + 1 <= k <= text.len() && glob_from(pat, text, i + 1, k));
            }
        }
    } else {
        if exists|k: int| j <= k <= text.len() && #[trigger] glob_from(pat, text, i + 1, k) {
            let k = choose|k: int| j <= k <= text.len() && #[trigger] glob_from(pat, text, i + 1, k);
            assert(k == j);
        }
        assert(j <= j <= text.len() ==> (glob_from(pat, text, i + 1, j) ==> exists|k: int|
            j <= k <= text.len() && #[trigger] glob_from(pat, text, i + 1, k)));
    }
}

/// At the end of the text only a run of `*` matches.
proof fn lemma_end_of_text(pat: Seq<u8>, text: Seq<u8>, i: int)
    requires
        0 <= i <= pat.len(),
    ensures
        glob_from(pat, text, i, text.len() as int) == (forall|q: int|
            i <= q < pat.len() ==> #[trigger] pat[q] == STAR),
    decreases pat.len() - i,
{
    if i < pat.len() {
        lemma_end_of_text(pat, text, i + 1);
    }
}

/// Whether `pat` matches the whole of `text`: `*` matches any run of bytes
/// (including `.`), `?` matches one byte, and the match is anchored at both ends.
pub fn glob_match(pat: &[u8], text: &[u8]) -> (r: bool)
    ensures
        r == glob_matches(pat@, text@),
{
    let ghost ps = pat@;
    let ghost ts = text@;
    let m = pat.len();
    let n = text.len();
    let mut p: usize = 0;
    let mut t: usize = 0;
    let mut star_p: usize = usize::MAX;
    let mut star_t: usize = 0;
    while t < n
        invariant
            m == ps.len(),
            n == ts.len(),
            ps == pat@,
            ts == text@,
            p <= m,
            t <= n,
            star_t <= t,
            star_p == usize::MAX ==> glob_matches(ps, ts) == glob_from(ps, ts, p as int, t as int),
            star_p != usize::MAX ==> {
                &&& star_p < p
                &&& ps[star_p as int] == STAR
                &&& p - (star_p + 1) == t - star_t
                &&& literal_run(ps, ts, star_p + 1, star_t as int, p - (star_p + 1))
                &&& glob_matches(ps, ts) == exists|k: int|
                    star_t <= k <= n && #[trigger] glob_from(ps, ts, star_p + 1, k)
            },
        decreases n - star_t, n - t, m - p,
    {
        if p < m && pat[p] == STAR {
            proof {
                lemma_star_expand(ps, ts, p as int, t as int);
                if star_p != usize::MAX {
                    let sp = star_p as int + 1;
                    let len = p - sp;
                    assert(star_free(ps, sp, len));
                    lemma_literal_shift(ps, ts, sp, star_t as int, len);
                    if glob_matches(ps, ts) {
                        let k = choose|k: int|
                            star_t <= k <= n && #[trigger] glob_from(ps, ts, sp, k);
                        lemma_star_free_needs(ps, ts, sp, k, len);
                        lemma_star_expand(ps, ts, p as int, k + len);
                        let k2 = choose|k2: int|
                            k + len <= k2 <= n && #[trigger] glob_from(ps, ts, p + 1, k2);
                        assert(t <= k2 <= n && glob_from(ps, ts, p + 1, k2));
                    }
                    if exists|k2: int| t <= k2 <= n && #[trigger] glob_from(ps, ts, p + 1, k2) {
                        assert(glob_from(ps, ts, p as int, t as int));
                        assert(star_t <= star_t <= n && glob_from(ps, ts, sp, star_t as int));
                    }
                }
            }
            star_p = p;
            star_t = t;
            p = p + 1;
        } else if p < m && (pat[p] == QUESTION || pat[p] == text[t]) {
            proof {
                if star_p != usize::MAX {
                    let sp = star_p as int + 1;
                    assert(literal_run(ps, ts, sp, star_t as int, p + 1 - sp)) by {
                        assert forall|d: int| 0 <= d < p + 1 - sp implies ps[sp + d] != STAR && (
                        ps[sp + d] == QUESTION || #[trigger] ps[sp + d] == ts[star_t + d]) by {
                            if d < p - sp {
                                assert(ps[sp + d] != STAR && (ps[sp + d] == QUESTION || ps[sp + d]
                                    == ts[star_t + d]));
                            }
                        }
                    }
                }
            }
            p = p + 1;
            t = t + 1;
        } else if star_p != usize::MAX {
            proof {
                let sp = star_p as int + 1;
                let len = p - sp;
                lemma_literal_shift(ps, ts, sp, star_t as int, len);
                assert(!glob_from(ps, ts, p as int, t as int));
                if glob_matches(ps, ts) {
                    let k = choose|k: int| star_t <= k <= n && #[trigger] glob_from(ps, ts, sp, k);
                    assert(k != star_t);
                    assert(star_t + 1 <= k <= n && glob_from(ps, ts, sp, k));
                }
            }
            p = star_p + 1;
            star_t = star_t + 1;
            t = star_t;
        } else {
            return false;
        }
    }
    proof {
        if star_p != usize::MAX {
            let sp = star_p as int + 1;
            let len = p - sp;
            assert(star_free(ps, sp, len));
            lemma_literal_shift(ps, ts, sp, star_t as int, len);
            if glob_matches(ps, ts) {
                let k = choose|k: int| star_t <= k <= n && #[trigger] glob_from(ps, ts, sp, k);
                lemma_star_free_needs(ps, ts, sp, k, len);
                assert(k == star_t);
            }
            if glob_from(ps, ts, p as int, t as int) {
                assert(star_t <= star_t <= n && glob_from(ps, ts, sp, star_t as int));
            }
        }
        lemma_end_of_text(ps, ts, p as int);
    }
    let ghost p0 = p;
    while p < m && pat[p] == STAR
        invariant
            m == ps.len(),
            ps == pat@,
            p0 <= p <= m,
            forall|q: int| p0 <= q < p ==> #[trigger] ps[q] == STAR,
        decreases m - p,
    {
        p = p + 1;
    }
    p == m
}

/// A lone `*` matches every text, dots included.
pub proof fn law_star_matches_everything(text: Seq<u8>)
    ensures
        glob_matches(seq![STAR], text),
{
    let pat = seq![STAR];
    lemma_end_of_text(pat, text, 1);
    lemma_star_expand(pat, text, 0, 0);
    assert(0 <= text.len() <= text.len() && glob_from(pat, text, 1, text.len() as int));
}

/// A lone `?` matches exactly the texts of one byte.
pub proof fn law_question_matches_one_byte(text: Seq<u8>)
    ensures
        glob_matches(seq![QUESTION], text) == (text.len() == 1),
{
    let pat = seq![QUESTION];
    if text.len() > 0 {
        assert(glob_from(pat, text, 1, 1) == (1 >= text.len()));
    }
}

/// A pattern without `*` and `?` matches only the text equal to it: matching is
/// anchored at both ends.
pub proof fn law_plain_pattern_is_equality(pat: Seq<u8>, text: Seq<u8>)
    requires
        forall|q: int| 0 <= q < pat.len() ==> #[trigger] pat[q] != STAR && pat[q] != QUESTION,
    ensures
        glob_matches(pat, text) == (pat == text),
{
    lemma_plain_from(pat, text, 0);
    if pat == text {
        assert(pat.skip(0) == text.skip(0));
    }
    if pat.skip(0) == text.skip(0) {
        assert(pat =~= text) by {
            assert(pat.skip(0) =~= pat);
            assert(text.skip(0) =~= text);
        }
    }
}

proof fn lemma_plain_from(pat: Seq<u8>, text: Seq<u8>, i: int)
    requires
        0 <= i <= pat.len(),
        i <= text.len(),
        forall|q: int| 0 <= q < pat.len() ==> #[trigger] pat[q] != STAR && pat[q] != QUESTION,
    ensures
        glob_from(pat, text, i, i) == (pat.skip(i) == text.skip(i)),
    decreases pat.len() - i,
{
    if i < pat.len() {
        if i < text.len() {
            lemma_plain_from(pat, text, i + 1);
            if pat.skip(i) =~= text.skip(i) {
                assert(pat.skip(i)[0] == text.skip(i)[0]);
                assert(pat.skip(i + 1) =~= pat.skip(i).skip(1));
                assert(text.skip(i + 1) =~= text.skip(i).skip(1));
            }
            if pat[i] == text[i] && pat.skip(i + 1) =~= text.skip(i + 1) {
                assert(pat.skip(i) =~= text.skip(i)) by {
                    assert forall|q: int| 0 <= q < pat.skip(i).len() implies pat.skip(i)[q]
                        == text.skip(i)[q] by {
                        if q > 0 {
                            assert(pat.skip(i)[q] == pat.skip(i + 1)[q - 1]);
                            assert(text.skip(i)[q] == text.skip(i + 1)[q - 1]);
                        }
                    }
                }
            }
        } else if i == text.len() {
            assert(pat.skip(i).len() > 0);
            assert(text.skip(i).len() == 0);
        }
    } else {
        if i <= text.len() {
            if text.len() > i {
                assert(text.skip(i).len() > 0);
            } else {
                assert(pat.skip(i) =~= text.skip(i));
            }
        }
    }
}

} // verus!
