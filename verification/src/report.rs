//! From findings located by byte offsets to reported lines, columns and
//! messages, with suppression comments honoured.
use vstd::prelude::*;
use vstd::string::StringSliceAdditionalSpecFns;
use crate::ast::Stmt;
use crate::bytes::push_all;
use crate::checker::{
    check_module, lemma_stmts_in_range, patterns_in_range, stmts_diags, Diag, HatchKind, Hatches,
    Pattern,
};
use crate::comments::{
    bare_noqa, law_bare_noqa_suppresses, law_lint_ignore_suppresses, lint_ignore_prefix,
    lint_ignored, noqa_suppresses, is_ascii_alnum, spec_lint_ignored, spec_noqa_suppresses,
};

verus! {

/// The offsets at which the lines of `s` start: 0, and one past each `\n`.
pub open spec fn line_starts(s: Seq<u8>) -> Seq<usize>
    decreases s.len(),
{
    if s.len() == 0 {
        seq![0usize]
    } else if s.last() == '\n' as u8 {
        line_starts(s.drop_last()).push(s.len() as usize)
    } else {
        line_starts(s.drop_last())
    }
}

/// `starts` begins at 0, rises strictly and stays within `len`.
pub open spec fn is_line_table(starts: Seq<usize>, len: int) -> bool {
    &&& starts.len() >= 1
    &&& starts[0] == 0
    &&& forall|i: int, j: int| 0 <= i < j < starts.len() ==> starts[i] < starts[j]
    &&& forall|i: int| 0 <= i < starts.len() ==> starts[i] <= len
}

/// The line starts of `s` form a line table.
pub proof fn lemma_line_starts(s: Seq<u8>)
    requires
        s.len() <= usize::MAX,
    ensures
        is_line_table(line_starts(s), s.len() as int),
    decreases s.len(),
{
    if s.len() > 0 {
        lemma_line_starts(s.drop_last());
    }
}

/// How many of `starts` are at or before `off`.
pub open spec fn count_at_or_before(starts: Seq<usize>, off: int) -> int
    decreases starts.len(),
{
    if starts.len() == 0 {
        0
    } else {
        count_at_or_before(starts.drop_last(), off) + if starts.last() <= off {
            1int
        } else {
            0int
        }
    }
}

/// The 1-based line that holds byte offset `off` of `src`.
pub open spec fn line_number(src: Seq<u8>, off: int) -> int {
    count_at_or_before(line_starts(src), off)
}

/// Where line `line` (1-based) of `src` starts.
pub open spec fn line_start(src: Seq<u8>, line: int) -> int {
    line_starts(src)[line - 1] as int
}

/// Where line `line` (1-based) of `src` ends, its `\n` excluded.
pub open spec fn line_end(src: Seq<u8>, line: int) -> int {
    if line < line_starts(src).len() {
        line_starts(src)[line] - 1
    } else {
        src.len() as int
    }
}

/// The text of line `line` (1-based) of `src`, its `\n` excluded.
pub open spec fn line_bytes(src: Seq<u8>, line: int) -> Seq<u8> {
    src.subrange(line_start(src, line), line_end(src, line))
}

/// The 1-based byte column of offset `off` of `src` on its line.
pub open spec fn column(src: Seq<u8>, off: int) -> int {
    off - line_start(src, line_number(src, off)) + 1
}

proof fn lemma_count_partition(starts: Seq<usize>, off: int, k: int)
    requires
        0 <= k <= starts.len(),
        forall|i: int| 0 <= i < k ==> starts[i] <= off,
        forall|i: int| k <= i < starts.len() ==> starts[i] > off,
    ensures
        count_at_or_before(starts, off) == k,
    decreases starts.len(),
{
    if starts.len() > 0 {
        let d = starts.drop_last();
        if k == starts.len() {
            lemma_count_partition(d, off, k - 1);
        } else {
            lemma_count_partition(d, off, k);
        }
    }
}

/// Where each line of a source text starts.
pub struct LineIndex {
    starts: Vec<usize>,
    len: usize,
}

impl LineIndex {
    /// The line starts held.
    pub closed spec fn starts_view(&self) -> Seq<usize> {
        self.starts@
    }

    /// The length of the indexed text.
    pub closed spec fn len_view(&self) -> int {
        self.len as int
    }

    #[verifier::type_invariant]
    spec fn is_well_formed(&self) -> bool {
        is_line_table(self.starts@, self.len as int)
    }

    /// Indexes the lines of `source`.
    pub fn new(source: &[u8]) -> (r: LineIndex)
        ensures
            r.starts_view() == line_starts(source@),
            r.len_view() == source@.len(),
    {
        let mut starts: Vec<usize> = Vec::new();
        starts.push(0);
        let mut i: usize = 0;
        while i < source.len()
            invariant
                i <= source.len(),
                starts@ == line_starts(source@.take(i as int)),
            decreases source.len() - i,
        {
            assert(source@.take(i + 1).drop_last() =~= source@.take(i as int));
            if source[i] == '\n' as u8 {
                starts.push(i + 1);
            }
            i = i + 1;
        }
        assert(source@.take(source.len() as int) =~= source@);
        proof {
            lemma_line_starts(source@);
        }
        LineIndex { starts, len: source.len() }
    }

    /// The 1-based line number containing byte offset `off`: the number of
    /// line starts at or before it.
    pub fn line_of(&self, off: usize) -> (r: usize)
        ensures
            r == count_at_or_before(self.starts_view(), off as int),
            1 <= r <= self.starts_view().len(),
            self.starts_view()[r - 1] <= off,
    {
        proof {
            use_type_invariant(self);
        }
        let mut lo: usize = 0;
        let mut hi: usize = self.starts.len();
        while lo < hi
            invariant
                0 <= lo <= hi <= self.starts@.len(),
                is_line_table(self.starts@, self.len as int),
                forall|i: int| 0 <= i < lo ==> self.starts@[i] <= off,
                forall|i: int| hi <= i < self.starts@.len() ==> self.starts@[i] > off,
            decreases hi - lo,
        {
            let mid = lo + (hi - lo) / 2;
            if self.starts[mid] <= off {
                assert forall|i: int| 0 <= i < mid + 1 implies self.starts@[i] <= off by {
                    if i < mid {
                        assert(self.starts@[i] < self.starts@[mid as int]);
                    }
                }
                lo = mid + 1;
            } else {
                assert forall|i: int| mid <= i < self.starts@.len() implies self.starts@[i] > off by {
                    if i > mid {
                        assert(self.starts@[mid as int] < self.starts@[i]);
                    }
                }
                hi = mid;
            }
        }
        proof {
            lemma_count_partition(self.starts@, off as int, lo as int);
        }
        lo
    }

    /// The text of line `line` (1-based) of `source`, its `\n` excluded.
    pub fn line_text<'s>(&self, source: &'s [u8], line: usize) -> (r: &'s [u8])
        requires
            1 <= line <= self.starts_view().len(),
            source@.len() == self.len_view(),
        ensures
            r@ == source@.subrange(
                self.starts_view()[line - 1] as int,
                if line < self.starts_view().len() {
                    self.starts_view()[line as int] - 1
                } else {
                    source@.len() as int
                },
            ),
    {
        proof {
            use_type_invariant(self);
        }
        let start = self.starts[line - 1];
        let end = if line < self.starts.len() {
            assert(self.starts@[line - 1] < self.starts@[line as int]);
            self.starts[line] - 1
        } else {
            self.len
        };
        &source[start..end]
    }

    /// The 1-based byte column of offset `off` on its line.
    pub fn col_of(&self, off: u32) -> (r: u64)
        ensures
            r == off - self.starts_view()[count_at_or_before(self.starts_view(), off as int) - 1]
                + 1,
    {
        let off = off as usize;
        let line = self.line_of(off);
        (off - self.starts[line - 1]) as u64 + 1
    }
}

/// A reported finding: 1-based line and byte column, and the message.
pub struct Finding {
    pub line: usize,
    pub col: u64,
    pub message: Vec<u8>,
}

/// A reported finding as plain values.
pub struct FindingView {
    pub line: int,
    pub col: int,
    pub message: Seq<u8>,
}

impl View for Finding {
    type V = FindingView;

    open spec fn view(&self) -> FindingView {
        FindingView { line: self.line as int, col: self.col as int, message: self.message@ }
    }
}

/// The rule name of a type escape hatch, as written in suppression comments.
pub open spec fn hatch_code(kind: HatchKind) -> Seq<u8> {
    match kind {
        HatchKind::AnyInAnnotation => "no-any".spec_bytes(),
        HatchKind::ObjectInAnnotation => "no-object".spec_bytes(),
        HatchKind::GetattrCall => "no-getattr".spec_bytes(),
        HatchKind::HasattrCall => "no-getattr".spec_bytes(),
    }
}

/// What a type escape hatch finding says.
pub open spec fn hatch_text(kind: HatchKind) -> Seq<u8> {
    match kind {
        HatchKind::AnyInAnnotation => "`Any` in annotation".spec_bytes(),
        HatchKind::ObjectInAnnotation => "`object` in annotation".spec_bytes(),
        HatchKind::GetattrCall => "`getattr(...)` is banned".spec_bytes(),
        HatchKind::HasattrCall => "`hasattr(...)` is banned".spec_bytes(),
    }
}

/// `b` with an ASCII small letter turned into its capital letter.
pub open spec fn ascii_upper(b: u8) -> u8 {
    if 0x61 <= b && b <= 0x7a {
        (b - 32) as u8
    } else {
        b
    }
}

/// `s` with every ASCII small letter turned into its capital letter.
pub open spec fn uppered(s: Seq<u8>) -> Seq<u8> {
    s.map_values(|b: u8| ascii_upper(b))
}

/// The message of an ASYNC200 finding matched by pattern `pat`.
pub open spec fn async200_message(pat: Seq<u8>, replacement: Seq<u8>) -> Seq<u8> {
    "ASYNC200 User-configured blocking sync call ".spec_bytes() + pat
        + " in async function, consider replacing with ".spec_bytes() + replacement
        + ".".spec_bytes()
}

/// The message of a type escape hatch finding.
pub open spec fn hatch_message(kind: HatchKind) -> Seq<u8> {
    uppered(hatch_code(kind)) + " ".spec_bytes() + hatch_text(kind)
        + " \u{2014} rewrite or add `# lint-ignore: ".spec_bytes() + hatch_code(kind)
        + "` to this line.".spec_bytes()
}

/// Some line from `first` to `last` (1-based, both included) of `src` lists
/// `code` in a `# lint-ignore:` comment.
pub open spec fn ignored_in_lines(src: Seq<u8>, first: int, last: int, code: Seq<u8>) -> bool {
    exists|l: int| first <= l <= last && #[trigger] spec_lint_ignored(line_bytes(src, l), code)
}

/// What `d` is reported as, or `None` when a comment suppresses it. An
/// ASYNC200 finding is reported at its own line, unless that line holds a
/// `# noqa` for it. A type escape hatch is reported at the first line of its
/// span, unless a line of its span lists the rule in `# lint-ignore:`.
pub open spec fn reported(src: Seq<u8>, pats: Seq<Pattern>, d: Diag) -> Option<FindingView> {
    match d {
        Diag::Async200 { offset, pattern_idx } => {
            let line = line_number(src, offset as int);
            if spec_noqa_suppresses(line_bytes(src, line)) {
                None
            } else {
                Some(
                    FindingView {
                        line,
                        col: column(src, offset as int),
                        message: async200_message(
                            pats[pattern_idx as int].glob@,
                            pats[pattern_idx as int].replacement@,
                        ),
                    },
                )
            }
        },
        Diag::Hatch { kind, offset, span_start, span_end } => {
            let first = line_number(src, span_start as int);
            let last = line_number(src, span_end as int);
            if ignored_in_lines(src, first, last, hatch_code(kind)) {
                None
            } else {
                Some(
                    FindingView {
                        line: first,
                        col: column(src, offset as int),
                        message: hatch_message(kind),
                    },
                )
            }
        },
    }
}

/// What each of `ds` is reported as, in order, suppressed ones left out.
pub open spec fn reported_all(src: Seq<u8>, pats: Seq<Pattern>, ds: Seq<Diag>) -> Seq<FindingView>
    decreases ds.len(),
{
    if ds.len() == 0 {
        seq![]
    } else {
        reported_all(src, pats, ds.drop_last()) + match reported(src, pats, ds.last()) {
            Some(f) => seq![f],
            None => seq![],
        }
    }
}

/// The rule name of a type escape hatch, as written in suppression comments.
pub fn hatch_code_bytes(kind: HatchKind) -> (r: &'static [u8])
    ensures
        r@ == hatch_code(kind),
{
    match kind {
        HatchKind::AnyInAnnotation => "no-any".as_bytes(),
        HatchKind::ObjectInAnnotation => "no-object".as_bytes(),
        HatchKind::GetattrCall => "no-getattr".as_bytes(),
        HatchKind::HasattrCall => "no-getattr".as_bytes(),
    }
}

fn hatch_text_bytes(kind: HatchKind) -> (r: &'static [u8])
    ensures
        r@ == hatch_text(kind),
{
    match kind {
        HatchKind::AnyInAnnotation => "`Any` in annotation".as_bytes(),
        HatchKind::ObjectInAnnotation => "`object` in annotation".as_bytes(),
        HatchKind::GetattrCall => "`getattr(...)` is banned".as_bytes(),
        HatchKind::HasattrCall => "`hasattr(...)` is banned".as_bytes(),
    }
}

/// Appends `s` with every ASCII small letter turned into its capital letter.
pub fn push_uppercase(out: &mut Vec<u8>, s: &[u8])
    ensures
        final(out)@ == old(out)@ + uppered(s@),
{
    let mut i: usize = 0;
    while i < s.len()
        invariant
            i <= s.len(),
            out@ == old(out)@ + uppered(s@.take(i as int)),
        decreases s.len() - i,
    {
        let b = s[i];
        let ub = if 0x61 <= b && b <= 0x7a {
            b - 32
        } else {
            b
        };
        out.push(ub);
        assert(uppered(s@.take(i + 1)) =~= uppered(s@.take(i as int)).push(ub));
        i = i + 1;
    }
    assert(s@.take(s.len() as int) =~= s@);
}

/// The message of an ASYNC200 finding matched by `pat`.
pub fn async200_message_bytes(pat: &Pattern) -> (r: Vec<u8>)
    ensures
        r@ == async200_message(pat.glob@, pat.replacement@),
{
    let mut out: Vec<u8> = Vec::new();
    push_all(&mut out, "ASYNC200 User-configured blocking sync call ".as_bytes());
    push_all(&mut out, pat.glob.as_slice());
    push_all(&mut out, " in async function, consider replacing with ".as_bytes());
    push_all(&mut out, pat.replacement.as_slice());
    push_all(&mut out, ".".as_bytes());
    out
}

/// The message of a type escape hatch finding.
pub fn hatch_message_bytes(kind: HatchKind) -> (r: Vec<u8>)
    ensures
        r@ == hatch_message(kind),
{
    let code = hatch_code_bytes(kind);
    let mut out: Vec<u8> = Vec::new();
    push_uppercase(&mut out, code);
    push_all(&mut out, " ".as_bytes());
    push_all(&mut out, hatch_text_bytes(kind));
    push_all(&mut out, " \u{2014} rewrite or add `# lint-ignore: ".as_bytes());
    push_all(&mut out, code);
    push_all(&mut out, "` to this line.".as_bytes());
    out
}

/// What `diag` is reported as, or `None` when a comment suppresses it.
pub fn report_diag(source: &[u8], index: &LineIndex, patterns: &[Pattern], diag: Diag) -> (r:
    Option<Finding>)
    requires
        index.starts_view() == line_starts(source@),
        index.len_view() == source@.len(),
        diag matches Diag::Async200 { pattern_idx, .. } ==> pattern_idx < patterns@.len(),
    ensures
        match r {
            Some(f) => reported(source@, patterns@, diag) == Some(f@),
            None => reported(source@, patterns@, diag) is None,
        },
{
    match diag {
        Diag::Async200 { offset, pattern_idx } => {
            let off = offset as usize;
            let line = index.line_of(off);
            if noqa_suppresses(index.line_text(source, line)) {
                return None;
            }
            let pat = &patterns[pattern_idx];
            Some(Finding { line, col: index.col_of(offset), message: async200_message_bytes(pat) })
        },
        Diag::Hatch { kind, offset, span_start, span_end } => {
            let start_line = index.line_of(span_start as usize);
            let end_line = index.line_of(span_end as usize);
            let code = hatch_code_bytes(kind);
            let mut line = start_line;
            while line <= end_line
                invariant
                    start_line <= line,
                    1 <= start_line,
                    start_line == line_number(source@, span_start as int),
                    end_line == line_number(source@, span_end as int),
                    diag == (Diag::Hatch { kind, offset, span_start, span_end }),
                    end_line <= index.starts_view().len(),
                    index.starts_view() == line_starts(source@),
                    index.len_view() == source@.len(),
                    code@ == hatch_code(kind),
                    forall|l: int|
                        start_line <= l < line ==> !#[trigger] spec_lint_ignored(
                            line_bytes(source@, l),
                            code@,
                        ),
                ensures
                    forall|l: int|
                        start_line <= l <= end_line ==> !#[trigger] spec_lint_ignored(
                            line_bytes(source@, l),
                            code@,
                        ),
                decreases end_line + 1 - line,
            {
                if lint_ignored(index.line_text(source, line), code) {
                    assert(start_line <= line <= end_line && spec_lint_ignored(
                        line_bytes(source@, line as int),
                        code@,
                    ));
                    return None;
                }
                if line == end_line {
                    break;
                }
                line = line + 1;
            }
            Some(
                Finding {
                    line: start_line,
                    col: index.col_of(offset),
                    message: hatch_message_bytes(kind),
                },
            )
        },
    }
}

/// Turns the findings of one source text into reported lines, columns and
/// messages, in order, leaving out those that a comment suppresses.
pub fn report(source: &[u8], patterns: &[Pattern], diags: &Vec<Diag>) -> (r: Vec<Finding>)
    requires
        patterns_in_range(patterns@, diags@),
    ensures
        r@.map_values(|f: Finding| f@) == reported_all(source@, patterns@, diags@),
{
    let index = LineIndex::new(source);
    let mut out: Vec<Finding> = Vec::new();
    let mut i: usize = 0;
    while i < diags.len()
        invariant
            i <= diags.len(),
            patterns_in_range(patterns@, diags@),
            index.starts_view() == line_starts(source@),
            index.len_view() == source@.len(),
            out@.map_values(|f: Finding| f@) == reported_all(source@, patterns@, diags@.take(i as int)),
        decreases diags.len() - i,
    {
        assert(diags@.take(i + 1).drop_last() =~= diags@.take(i as int));
        assert(diags@.take(i + 1).last() == diags@[i as int]);
        let d = diags[i];
        assert(d == diags@[i as int]);
        let ghost before = out@;
        match report_diag(source, &index, patterns, d) {
            Some(f) => {
                out.push(f);
                assert(out@.map_values(|f: Finding| f@) =~= before.map_values(|f: Finding| f@).push(f@));
            },
            None => {},
        }
        i = i + 1;
    }
    assert(diags@.take(diags.len() as int) =~= diags@);
    out
}

/// Checks a module and reports its findings: the walk over `module`, then the
/// lines, columns and messages against `source`, suppressed findings left out.
pub fn check_source(source: &[u8], module: &Vec<Stmt>, patterns: &[Pattern], hatches: Hatches) -> (r:
    Vec<Finding>)
    ensures
        r@.map_values(|f: Finding| f@) == reported_all(
            source@,
            patterns@,
            stmts_diags(patterns@, hatches, module@, false),
        ),
{
    let diags = check_module(module, patterns, hatches);
    proof {
        lemma_stmts_in_range(patterns@, hatches, module@, false);
    }
    report(source, patterns, &diags)
}

/// An ASYNC200 finding on a line that ends in `# noqa` is never reported.
pub proof fn law_noqa_line_is_silent(src: Seq<u8>, pats: Seq<Pattern>, offset: u32, pattern_idx: usize, code: Seq<u8>)
    requires
        line_bytes(src, line_number(src, offset as int)) == code + bare_noqa(),
    ensures
        reported(src, pats, Diag::Async200 { offset, pattern_idx }) is None,
{
    law_bare_noqa_suppresses(code);
}

/// A type escape hatch finding is never reported when some line of its span
/// ends in `# lint-ignore: <rule>` for its rule.
pub proof fn law_lint_ignore_line_is_silent(
    src: Seq<u8>,
    pats: Seq<Pattern>,
    kind: HatchKind,
    offset: u32,
    span_start: u32,
    span_end: u32,
    line: int,
    code: Seq<u8>,
)
    requires
        line_number(src, span_start as int) <= line <= line_number(src, span_end as int),
        line_bytes(src, line) == code + lint_ignore_prefix() + hatch_code(kind),
    ensures
        reported(src, pats, Diag::Hatch { kind, offset, span_start, span_end }) is None,
{
    let rule = hatch_code(kind);
    reveal_strlit("no-any");
    reveal_strlit("no-object");
    reveal_strlit("no-getattr");
    assert(vstd::string::is_ascii("no-any"));
    assert(vstd::string::is_ascii("no-object"));
    assert(vstd::string::is_ascii("no-getattr"));
    broadcast use vstd::string::is_ascii_spec_bytes;
    assert forall|k: int|
        0 <= k < rule.len() implies is_ascii_alnum(#[trigger] rule[k]) || rule[k] == '_' as u8
            || rule[k] == '-' as u8 by {}
    law_lint_ignore_suppresses(code, rule);
    assert(spec_lint_ignored(line_bytes(src, line), rule));
}

} // verus!
