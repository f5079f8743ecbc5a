//! What the command line asks for: paths, excludes, blocking-call patterns and
//! type escape hatch rules.
use vstd::prelude::*;
use vstd::string::StringSliceAdditionalSpecFns;
use crate::bytes::{bytes_eq, push_all, push_range, starts_with_at};
use crate::checker::{Hatches, Pattern};
use crate::comments::{find_sep, next_sep, trim_end, trim_start, trimmed};
use crate::preset::{stdlib_patterns, stdlib_preset};

verus! {

/// A command line that cannot be run.
pub enum ArgError {
    /// A `--async200-blocking-calls` entry (trimmed) without `->`.
    MissingArrow(Vec<u8>),
    /// A `--type-hatches` rule (trimmed) that is not known.
    UnknownHatch(Vec<u8>),
    /// `--async200-transitive` without any blocking-call pattern.
    TransitiveWithoutPatterns,
}

/// An `ArgError` as plain values.
pub enum ArgErrorView {
    MissingArrow(Seq<u8>),
    UnknownHatch(Seq<u8>),
    TransitiveWithoutPatterns,
}

impl View for ArgError {
    type V = ArgErrorView;

    open spec fn view(&self) -> ArgErrorView {
        match self {
            ArgError::MissingArrow(e) => ArgErrorView::MissingArrow(e@),
            ArgError::UnknownHatch(c) => ArgErrorView::UnknownHatch(c@),
            ArgError::TransitiveWithoutPatterns => ArgErrorView::TransitiveWithoutPatterns,
        }
    }
}

/// What the command line asks for.
pub struct Options {
    /// The files and directories to check, in order.
    pub paths: Vec<Vec<u8>>,
    /// The exclude patterns, in order.
    pub excludes: Vec<Vec<u8>>,
    /// The blocking-call patterns, in order.
    pub patterns: Vec<Pattern>,
    pub hatches: Hatches,
    /// Whether `--async200-transitive` was given.
    pub transitive: bool,
    /// Whether `--async200-stdlib` was given.
    pub stdlib: bool,
    /// The unsupported flags that were given, in order.
    pub notes: Vec<Vec<u8>>,
}

/// `Options` as plain values.
#[verifier::ext_equal]
pub struct OptionsView {
    pub paths: Seq<Seq<u8>>,
    pub excludes: Seq<Seq<u8>>,
    pub patterns: Seq<(Seq<u8>, Seq<u8>)>,
    pub hatches: Hatches,
    pub transitive: bool,
    pub stdlib: bool,
    pub notes: Seq<Seq<u8>>,
}

/// The byte strings of a list of byte vectors.
pub open spec fn bytes_list(v: Seq<Vec<u8>>) -> Seq<Seq<u8>> {
    v.map_values(|a: Vec<u8>| a@)
}

/// The globs and replacements of a list of patterns.
pub open spec fn pattern_list(v: Seq<Pattern>) -> Seq<(Seq<u8>, Seq<u8>)> {
    v.map_values(|p: Pattern| (p.glob@, p.replacement@))
}

impl View for Options {
    type V = OptionsView;

    open spec fn view(&self) -> OptionsView {
        OptionsView {
            paths: bytes_list(self.paths@),
            excludes: bytes_list(self.excludes@),
            patterns: pattern_list(self.patterns@),
            hatches: self.hatches,
            transitive: self.transitive,
            stdlib: self.stdlib,
            notes: bytes_list(self.notes@),
        }
    }
}

/// The outcome of reading a command line: what was read up to the point where
/// reading stopped, and the error that stopped it, if any.
pub struct CommandLine {
    pub options: Options,
    pub error: Option<ArgError>,
}

/// `p` with whitespace trimmed at both ends.
pub open spec fn trim_bytes(p: Seq<u8>) -> Seq<u8> {
    trimmed(p, 0, p.len() as int)
}

/// The comma-separated pieces of `v[i..]`.
pub open spec fn split_from(v: Seq<u8>, i: int) -> Seq<Seq<u8>>
    decreases v.len() - i,
{
    if i < 0 || i > v.len() {
        seq![]
    } else {
        let b = next_sep(v, i, v.len() as int, seq![',' as u8]);
        proof {
            crate::comments::lemma_next_sep_bounds(v, i, v.len() as int, seq![',' as u8]);
        }
        seq![v.subrange(i, b)] + if b < v.len() {
            split_from(v, b + 1)
        } else {
            seq![]
        }
    }
}

/// The comma-separated pieces of `v`, as `str::split(',')` gives them.
pub open spec fn split_commas(v: Seq<u8>) -> Seq<Seq<u8>> {
    split_from(v, 0)
}

/// `p` without its trailing `/`s.
pub open spec fn strip_trailing_slashes(p: Seq<u8>) -> Seq<u8>
    decreases p.len(),
{
    if p.len() > 0 && p.last() == '/' as u8 {
        strip_trailing_slashes(p.drop_last())
    } else {
        p
    }
}

/// The exclude patterns that a `--exclude` value gives: each comma-separated
/// piece, trimmed, without trailing `/`s.
pub open spec fn exclude_entries(v: Seq<u8>) -> Seq<Seq<u8>> {
    split_commas(v).map_values(|p: Seq<u8>| strip_trailing_slashes(trim_bytes(p)))
}

/// The first index at or after `k` where `->` starts in `e`.
pub open spec fn arrow_from(e: Seq<u8>, k: int) -> Option<int>
    decreases e.len() - k,
{
    if k < 0 || k + 2 > e.len() {
        None
    } else if e[k] == '-' as u8 && e[k + 1] == '>' as u8 {
        Some(k)
    } else {
        arrow_from(e, k + 1)
    }
}

/// Adds the pattern entries of `entries` to `st`: each non-empty trimmed entry
/// must hold `->`; the trimmed text before the first `->` is the glob and the
/// trimmed text after it the replacement.
pub open spec fn add_patterns(st: OptionsView, entries: Seq<Seq<u8>>) -> (OptionsView, Option<
    ArgErrorView,
>)
    decreases entries.len(),
{
    if entries.len() == 0 {
        (st, None)
    } else {
        let e = trim_bytes(entries[0]);
        if e.len() == 0 {
            add_patterns(st, entries.drop_first())
        } else {
            match arrow_from(e, 0) {
                Some(k) => add_patterns(
                    OptionsView {
                        patterns: st.patterns.push(
                            (trim_bytes(e.subrange(0, k)), trim_bytes(e.subrange(k + 2, e.len() as int))),
                        ),
                        ..st
                    },
                    entries.drop_first(),
                ),
                None => (st, Some(ArgErrorView::MissingArrow(e))),
            }
        }
    }
}

/// Enables the rules of `entries` in `st`: each non-empty trimmed entry must
/// be `no-any`, `no-getattr` or `no-object`.
pub open spec fn add_hatches(st: OptionsView, entries: Seq<Seq<u8>>) -> (OptionsView, Option<
    ArgErrorView,
>)
    decreases entries.len(),
{
    if entries.len() == 0 {
        (st, None)
    } else {
        let c = trim_bytes(entries[0]);
        if c.len() == 0 {
            add_hatches(st, entries.drop_first())
        } else if c == "no-any".spec_bytes() {
            add_hatches(
                OptionsView { hatches: Hatches { no_any: true, ..st.hatches }, ..st },
                entries.drop_first(),
            )
        } else if c == "no-getattr".spec_bytes() {
            add_hatches(
                OptionsView { hatches: Hatches { no_getattr: true, ..st.hatches }, ..st },
                entries.drop_first(),
            )
        } else if c == "no-object".spec_bytes() {
            add_hatches(
                OptionsView { hatches: Hatches { no_object: true, ..st.hatches }, ..st },
                entries.drop_first(),
            )
        } else {
            (st, Some(ArgErrorView::UnknownHatch(c)))
        }
    }
}

/// `arg` is the flag `name`, bare or as `name=value`.
pub open spec fn is_flag(arg: Seq<u8>, name: Seq<u8>) -> bool {
    arg == name || (arg.len() > name.len() && arg.subrange(0, name.len() as int) == name
        && arg[name.len() as int] == '=' as u8)
}

/// The first index at or after `k` of `=` in `a`.
pub open spec fn eq_from(a: Seq<u8>, k: int) -> Option<int>
    decreases a.len() - k,
{
    if k < 0 || k >= a.len() {
        None
    } else if a[k] == '=' as u8 {
        Some(k)
    } else {
        eq_from(a, k + 1)
    }
}

/// The value of the flag at `args[i]` and the index of the argument after it:
/// the text after its first `=`, else the next argument, else nothing.
pub open spec fn flag_value(args: Seq<Seq<u8>>, i: int) -> (Seq<u8>, int) {
    let a = args[i];
    match eq_from(a, 0) {
        Some(k) => (a.subrange(k + 1, a.len() as int), i + 1),
        None => if i + 1 < args.len() {
            (args[i + 1], i + 2)
        } else {
            (seq![], i + 1)
        },
    }
}

/// The end of reading: with no path given, `.` is checked; the standard
/// library preset is appended after the configured patterns, so that these win
/// where both match; the transitive mode needs blocking-call patterns.
pub open spec fn finish(st: OptionsView) -> (OptionsView, Option<ArgErrorView>) {
    let st2 = if st.paths.len() == 0 {
        OptionsView { paths: seq![".".spec_bytes()], ..st }
    } else {
        st
    };
    let st3 = if st2.stdlib {
        OptionsView { patterns: st2.patterns + stdlib_patterns(), ..st2 }
    } else {
        st2
    };
    if st3.transitive && st3.patterns.len() == 0 {
        (st3, Some(ArgErrorView::TransitiveWithoutPatterns))
    } else {
        (st3, None)
    }
}

/// Reads `args[i..]` on top of `st`.
pub open spec fn scan(args: Seq<Seq<u8>>, i: int, st: OptionsView) -> (OptionsView, Option<
    ArgErrorView,
>)
    decreases args.len() - i,
{
    if i < 0 || i >= args.len() {
        finish(st)
    } else {
        let a = args[i];
        if is_flag(a, "--exclude".spec_bytes()) {
            let (v, j) = flag_value(args, i);
            scan(args, j, OptionsView { excludes: st.excludes + exclude_entries(v), ..st })
        } else if is_flag(a, "--async200-blocking-calls".spec_bytes()) {
            let (v, j) = flag_value(args, i);
            match add_patterns(st, split_commas(v)) {
                (st2, None) => scan(args, j, st2),
                (st2, Some(e)) => (st2, Some(e)),
            }
        } else if is_flag(a, "--type-hatches".spec_bytes()) {
            let (v, j) = flag_value(args, i);
            match add_hatches(st, split_commas(v)) {
                (st2, None) => scan(args, j, st2),
                (st2, Some(e)) => (st2, Some(e)),
            }
        } else if a == "--async200-transitive".spec_bytes() {
            scan(args, i + 1, OptionsView { transitive: true, ..st })
        } else if a == "--async200-stdlib".spec_bytes() {
            scan(args, i + 1, OptionsView { stdlib: true, ..st })
        } else if is_flag(a, "--ignore".spec_bytes()) {
            scan(args, flag_value(args, i).1, st)
        } else if a == "--asyncio".spec_bytes() {
            scan(args, i + 1, st)
        } else if a.len() > 0 && a[0] == '-' as u8 {
            scan(args, i + 1, OptionsView { notes: st.notes.push(a), ..st })
        } else {
            scan(args, i + 1, OptionsView { paths: st.paths.push(a), ..st })
        }
    }
}

/// Nothing read yet.
pub open spec fn empty_options() -> OptionsView {
    OptionsView {
        paths: seq![],
        excludes: seq![],
        patterns: seq![],
        hatches: Hatches { no_any: false, no_getattr: false, no_object: false },
        transitive: false,
        stdlib: false,
        notes: seq![],
    }
}

/// An optional `ArgError` as plain values.
pub open spec fn error_view(e: Option<ArgError>) -> Option<ArgErrorView> {
    match e {
        Some(e) => Some(e@),
        None => None,
    }
}

/// `p` with whitespace trimmed at both ends.
pub fn trim_vec(p: &[u8]) -> (r: Vec<u8>)
    ensures
        r@ == trim_bytes(p@),
{
    let a = trim_start(p, 0, p.len());
    let b = trim_end(p, a, p.len());
    let mut out: Vec<u8> = Vec::new();
    push_range(&mut out, p, a, b);
    out
}

/// The comma-separated pieces of `v`, as `str::split(',')` gives them.
pub fn split_on_commas(v: &[u8]) -> (r: Vec<Vec<u8>>)
    ensures
        bytes_list(r@) == split_commas(v@),
{
    let comma: [u8; 1] = [',' as u8];
    assert(comma@ =~= seq![',' as u8]);
    let mut out: Vec<Vec<u8>> = Vec::new();
    let mut a: usize = 0;
    loop
        invariant
            a <= v.len(),
            comma@ == seq![',' as u8],
            split_commas(v@) == bytes_list(out@) + split_from(v@, a as int),
        decreases v.len() - a,
    {
        let b = find_sep(v, a, v.len(), comma.as_slice());
        let mut piece: Vec<u8> = Vec::new();
        push_range(&mut piece, v, a, b);
        let ghost before = out@;
        out.push(piece);
        assert(bytes_list(out@) =~= bytes_list(before).push(piece@));
        if b >= v.len() {
            assert(split_from(v@, a as int) =~= seq![v@.subrange(a as int, b as int)]);
            assert(bytes_list(out@) =~= bytes_list(before) + split_from(v@, a as int));
            return out;
        }
        assert(bytes_list(out@) + split_from(v@, b + 1) =~= bytes_list(before) + split_from(
            v@,
            a as int,
        ));
        a = b + 1;
    }
}

/// `p` without its trailing `/`s.
pub fn strip_slashes(p: Vec<u8>) -> (r: Vec<u8>)
    ensures
        r@ == strip_trailing_slashes(p@),
{
    let ghost orig = p@;
    let mut p = p;
    while p.len() > 0 && p[p.len() - 1] == '/' as u8
        invariant
            strip_trailing_slashes(p@) == strip_trailing_slashes(orig),
        decreases p.len(),
    {
        let ghost before = p@;
        p.pop();
        assert(p@ =~= before.drop_last());
    }
    p
}

/// Where `->` first occurs in `e`.
pub fn find_arrow(e: &[u8]) -> (r: Option<usize>)
    ensures
        match r {
            Some(k) => arrow_from(e@, 0) == Some(k as int) && k + 2 <= e@.len(),
            None => arrow_from(e@, 0) is None,
        },
{
    let mut k: usize = 0;
    while e.len() >= 2 && k <= e.len() - 2
        invariant
            arrow_from(e@, 0) == arrow_from(e@, k as int),
        decreases e.len() - k,
    {
        if e[k] == '-' as u8 && e[k + 1] == '>' as u8 {
            return Some(k);
        }
        k = k + 1;
    }
    None
}

/// Whether `arg` is the flag `name`, bare or as `name=value`.
pub fn is_flag_arg(arg: &[u8], name: &[u8]) -> (r: bool)
    ensures
        r == is_flag(arg@, name@),
{
    if bytes_eq(arg, name) {
        return true;
    }
    arg.len() > name.len() && starts_with_at(arg, 0, name) && arg[name.len()] == '=' as u8
}

/// The value of the flag at `args[i]` and the index of the argument after it:
/// the text after its first `=`, else the next argument, else nothing.
pub fn take_value(args: &Vec<Vec<u8>>, i: usize) -> (r: (Vec<u8>, usize))
    requires
        i < args.len(),
    ensures
        (r.0@, r.1 as int) == flag_value(bytes_list(args@), i as int),
{
    let a = &args[i];
    let mut k: usize = 0;
    while k < a.len()
        invariant
            i < args.len(),
            a@ == bytes_list(args@)[i as int],
            k <= a.len(),
            eq_from(a@, 0) == eq_from(a@, k as int),
        decreases a.len() - k,
    {
        if a[k] == '=' as u8 {
            let mut v: Vec<u8> = Vec::new();
            push_range(&mut v, a.as_slice(), k + 1, a.len());
            return (v, i + 1);
        }
        k = k + 1;
    }
    if i + 1 < args.len() {
        (copy_bytes(args[i + 1].as_slice()), i + 2)
    } else {
        (Vec::new(), i + 1)
    }
}

/// A fresh vector holding `s`.
pub fn copy_bytes(s: &[u8]) -> (r: Vec<u8>)
    ensures
        r@ == s@,
{
    let mut out: Vec<u8> = Vec::new();
    push_all(&mut out, s);
    out
}

/// Adds the pattern entries of `entries` to `opts`, or returns the first
/// entry without `->`.
pub fn add_pattern_entries(opts: &mut Options, entries: &Vec<Vec<u8>>) -> (r: Option<ArgError>)
    ensures
        (final(opts)@, error_view(r)) == add_patterns(old(opts)@, bytes_list(entries@)),
{
    assert(bytes_list(entries@).skip(0) =~= bytes_list(entries@));
    let mut j: usize = 0;
    while j < entries.len()
        invariant
            j <= entries.len(),
            add_patterns(old(opts)@, bytes_list(entries@)) == add_patterns(
                opts@,
                bytes_list(entries@).skip(j as int),
            ),
        decreases entries.len() - j,
    {
        let ghost rest = bytes_list(entries@).skip(j as int);
        assert(rest[0] == entries@[j as int]@);
        assert(rest.drop_first() =~= bytes_list(entries@).skip(j + 1));
        let e = trim_vec(entries[j].as_slice());
        if e.len() > 0 {
            match find_arrow(e.as_slice()) {
                Some(k) => {
                    let mut key: Vec<u8> = Vec::new();
                    push_range(&mut key, e.as_slice(), 0, k);
                    let mut repl: Vec<u8> = Vec::new();
                    push_range(&mut repl, e.as_slice(), k + 2, e.len());
                    let ghost before = opts.patterns@;
                    opts.patterns.push(
                        Pattern { glob: trim_vec(key.as_slice()), replacement: trim_vec(repl.as_slice()) },
                    );
                    assert(pattern_list(opts.patterns@) =~= pattern_list(before).push(
                        (trim_bytes(e@.subrange(0, k as int)), trim_bytes(e@.subrange(k + 2, e@.len() as int))),
                    ));
                },
                None => {
                    return Some(ArgError::MissingArrow(e));
                },
            }
        }
        j = j + 1;
    }
    assert(bytes_list(entries@).skip(j as int) =~= Seq::<Seq<u8>>::empty());
    None
}

/// Enables the rules of `entries` in `opts`, or returns the first unknown rule.
pub fn add_hatch_entries(opts: &mut Options, entries: &Vec<Vec<u8>>) -> (r: Option<ArgError>)
    ensures
        (final(opts)@, error_view(r)) == add_hatches(old(opts)@, bytes_list(entries@)),
{
    assert(bytes_list(entries@).skip(0) =~= bytes_list(entries@));
    let mut j: usize = 0;
    while j < entries.len()
        invariant
            j <= entries.len(),
            add_hatches(old(opts)@, bytes_list(entries@)) == add_hatches(
                opts@,
                bytes_list(entries@).skip(j as int),
            ),
        decreases entries.len() - j,
    {
        let ghost rest = bytes_list(entries@).skip(j as int);
        assert(rest[0] == entries@[j as int]@);
        assert(rest.drop_first() =~= bytes_list(entries@).skip(j + 1));
        let c = trim_vec(entries[j].as_slice());
        if c.len() > 0 {
            if bytes_eq(c.as_slice(), "no-any".as_bytes()) {
                opts.hatches.no_any = true;
            } else if bytes_eq(c.as_slice(), "no-getattr".as_bytes()) {
                opts.hatches.no_getattr = true;
            } else if bytes_eq(c.as_slice(), "no-object".as_bytes()) {
                opts.hatches.no_object = true;
            } else {
                return Some(ArgError::UnknownHatch(c));
            }
        }
        j = j + 1;
    }
    assert(bytes_list(entries@).skip(j as int) =~= Seq::<Seq<u8>>::empty());
    None
}

/// Appends copies of `extra` to the patterns of `opts`.
pub fn append_patterns(opts: &mut Options, extra: &Vec<Pattern>)
    ensures
        final(opts)@ == (OptionsView {
            patterns: old(opts)@.patterns + pattern_list(extra@),
            ..old(opts)@
        }),
{
    let ghost all = pattern_list(extra@);
    let mut k: usize = 0;
    while k < extra.len()
        invariant
            k <= extra@.len(),
            all == pattern_list(extra@),
            opts@ == (OptionsView { patterns: old(opts)@.patterns + all.take(k as int), ..old(opts)@ }),
        decreases extra@.len() - k,
    {
        let p = Pattern {
            glob: copy_bytes(extra[k].glob.as_slice()),
            replacement: copy_bytes(extra[k].replacement.as_slice()),
        };
        let ghost mid = opts.patterns@;
        opts.patterns.push(p);
        assert(pattern_list(opts.patterns@) =~= pattern_list(mid).push((p.glob@, p.replacement@)));
        assert(all.take(k + 1) =~= all.take(k as int).push(all[k as int]));
        k = k + 1;
    }
    assert(all.take(k as int) =~= all);
}

/// Reads a command line (the arguments after the program name): paths to
/// check, `--exclude`, `--async200-blocking-calls`, `--type-hatches` and
/// `--async200-transitive` and `--async200-stdlib`; `--ignore` and `--asyncio`
/// are accepted and have
/// no effect; any other argument starting with `-` is noted as unsupported.
pub fn parse_args(args: &Vec<Vec<u8>>) -> (r: CommandLine)
    ensures
        (r.options@, error_view(r.error)) == scan(bytes_list(args@), 0, empty_options()),
{
    let mut opts = Options {
        paths: Vec::new(),
        excludes: Vec::new(),
        patterns: Vec::new(),
        hatches: Hatches { no_any: false, no_getattr: false, no_object: false },
        transitive: false,
        stdlib: false,
        notes: Vec::new(),
    };
    assert(opts@ =~= empty_options());
    let ghost all = bytes_list(args@);
    let mut i: usize = 0;
    while i < args.len()
        invariant
            i <= args.len(),
            all == bytes_list(args@),
            scan(all, 0, empty_options()) == scan(all, i as int, opts@),
        decreases args.len() - i,
    {
        let a = args[i].as_slice();
        assert(a@ == all[i as int]);
        let ghost st0 = opts@;
        if is_flag_arg(a, "--exclude".as_bytes()) {
            let (v, j) = take_value(args, i);
            let pieces = split_on_commas(v.as_slice());
            let ghost before = opts.excludes@;
            let ghost st0_paths = opts.paths@;
            let mut k: usize = 0;
            while k < pieces.len()
                invariant
                    k <= pieces.len(),
                    bytes_list(pieces@) == split_commas(v@),
                    opts.paths@ == st0_paths,
                    pattern_list(opts.patterns@) == st0.patterns,
                    opts.hatches == st0.hatches,
                    opts.transitive == st0.transitive,
                    opts.stdlib == st0.stdlib,
                    bytes_list(opts.notes@) == st0.notes,
                    bytes_list(opts.excludes@) == bytes_list(before) + split_commas(v@).take(
                        k as int,
                    ).map_values(|p: Seq<u8>| strip_trailing_slashes(trim_bytes(p))),
                decreases pieces.len() - k,
            {
                let e = strip_slashes(trim_vec(pieces[k].as_slice()));
                let ghost mid = opts.excludes@;
                opts.excludes.push(e);
                assert(split_commas(v@)[k as int] == pieces@[k as int]@);
                assert(split_commas(v@).take(k + 1).map_values(
                    |p: Seq<u8>| strip_trailing_slashes(trim_bytes(p)),
                ) =~= split_commas(v@).take(k as int).map_values(
                    |p: Seq<u8>| strip_trailing_slashes(trim_bytes(p)),
                ).push(e@));
                assert(bytes_list(opts.excludes@) =~= bytes_list(mid).push(e@));
                k = k + 1;
            }
            assert(split_commas(v@).take(pieces.len() as int) =~= split_commas(v@));
            assert(bytes_list(opts.excludes@) =~= bytes_list(before) + exclude_entries(v@));
            assert(scan(all, i as int, st0) == scan(all, j as int, opts@));
            i = j;
        } else if is_flag_arg(a, "--async200-blocking-calls".as_bytes()) {
            let (v, j) = take_value(args, i);
            let pieces = split_on_commas(v.as_slice());
            let err = add_pattern_entries(&mut opts, &pieces);
            if err.is_some() {
                return CommandLine { options: opts, error: err };
            }
            assert(scan(all, i as int, st0) == scan(all, j as int, opts@));
            i = j;
        } else if is_flag_arg(a, "--type-hatches".as_bytes()) {
            let (v, j) = take_value(args, i);
            let pieces = split_on_commas(v.as_slice());
            let err = add_hatch_entries(&mut opts, &pieces);
            if err.is_some() {
                return CommandLine { options: opts, error: err };
            }
            assert(scan(all, i as int, st0) == scan(all, j as int, opts@));
            i = j;
        } else if bytes_eq(a, "--async200-transitive".as_bytes()) {
            opts.transitive = true;
            assert(scan(all, i as int, st0) == scan(all, i + 1, opts@));
            i = i + 1;
        } else if bytes_eq(a, "--async200-stdlib".as_bytes()) {
            opts.stdlib = true;
            assert(scan(all, i as int, st0) == scan(all, i + 1, opts@));
            i = i + 1;
        } else if is_flag_arg(a, "--ignore".as_bytes()) {
            let (_, j) = take_value(args, i);
            assert(scan(all, i as int, st0) == scan(all, j as int, opts@));
            i = j;
        } else if bytes_eq(a, "--asyncio".as_bytes()) {
            i = i + 1;
        } else if a.len() > 0 && a[0] == '-' as u8 {
            let ghost before = opts.notes@;
            opts.notes.push(copy_bytes(a));
            assert(bytes_list(opts.notes@) =~= bytes_list(before).push(a@));
            assert(scan(all, i as int, st0) == scan(all, i + 1, opts@));
            i = i + 1;
        } else {
            let ghost before = opts.paths@;
            opts.paths.push(copy_bytes(a));
            assert(bytes_list(opts.paths@) =~= bytes_list(before).push(a@));
            assert(scan(all, i as int, st0) == scan(all, i + 1, opts@));
            i = i + 1;
        }
    }
    if opts.paths.len() == 0 {
        let mut dot: Vec<u8> = Vec::new();
        push_all(&mut dot, ".".as_bytes());
        opts.paths.push(dot);
        assert(bytes_list(opts.paths@) =~= seq![".".spec_bytes()]);
    }
    if opts.stdlib {
        append_patterns(&mut opts, &stdlib_preset());
    }
    if opts.transitive && opts.patterns.len() == 0 {
        return CommandLine { options: opts, error: Some(ArgError::TransitiveWithoutPatterns) };
    }
    CommandLine { options: opts, error: None }
}

/// One of `entries`, trimmed, is `name`.
pub open spec fn lists(entries: Seq<Seq<u8>>, name: Seq<u8>) -> bool {
    exists|i: int| 0 <= i < entries.len() && trim_bytes(#[trigger] entries[i]) == name
}

proof fn lemma_lists_split(entries: Seq<Seq<u8>>, name: Seq<u8>)
    requires
        entries.len() > 0,
    ensures
        lists(entries, name) == (trim_bytes(entries[0]) == name || lists(entries.drop_first(), name)),
{
    if lists(entries, name) {
        let i = choose|i: int| 0 <= i < entries.len() && trim_bytes(#[trigger] entries[i]) == name;
        if i > 0 {
            assert(entries.drop_first()[i - 1] == entries[i]);
        }
    }
    if lists(entries.drop_first(), name) {
        let i = choose|i: int| 0 <= i < entries.drop_first().len() && trim_bytes(#[trigger] entries.drop_first()[i]) == name;
        assert(entries.drop_first()[i] == entries[i + 1]);
    }
}

/// Reading `--type-hatches` entries that are each empty or a rule name turns
/// on exactly the rules that some entry names, leaves the rules already on as
/// they are, and changes nothing else.
pub proof fn law_hatch_entries_enable_their_rules(st: OptionsView, entries: Seq<Seq<u8>>)
    requires
        forall|i: int|
            0 <= i < entries.len() ==> {
                let c = trim_bytes(#[trigger] entries[i]);
                ||| c.len() == 0
                ||| c == "no-any".spec_bytes()
                ||| c == "no-getattr".spec_bytes()
                ||| c == "no-object".spec_bytes()
            },
    ensures
        add_hatches(st, entries) == (
            OptionsView {
                hatches: Hatches {
                    no_any: st.hatches.no_any || lists(entries, "no-any".spec_bytes()),
                    no_getattr: st.hatches.no_getattr || lists(entries, "no-getattr".spec_bytes()),
                    no_object: st.hatches.no_object || lists(entries, "no-object".spec_bytes()),
                },
                ..st
            },
            None::<ArgErrorView>,
        ),
    decreases entries.len(),
{
    reveal_strlit("no-any");
    reveal_strlit("no-getattr");
    reveal_strlit("no-object");
    assert(vstd::string::is_ascii("no-any"));
    assert(vstd::string::is_ascii("no-getattr"));
    assert(vstd::string::is_ascii("no-object"));
    broadcast use vstd::string::is_ascii_spec_bytes;
    assert("no-any".spec_bytes().len() == 6);
    assert("no-getattr".spec_bytes().len() == 10);
    assert("no-object".spec_bytes().len() == 9);
    if entries.len() > 0 {
        let c = trim_bytes(entries[0]);
        let rest = entries.drop_first();
        assert forall|i: int| 0 <= i < rest.len() implies {
            let c = trim_bytes(#[trigger] rest[i]);
            ||| c.len() == 0
            ||| c == "no-any".spec_bytes()
            ||| c == "no-getattr".spec_bytes()
            ||| c == "no-object".spec_bytes()
        } by {
            assert(rest[i] == entries[i + 1]);
        }
        lemma_lists_split(entries, "no-any".spec_bytes());
        lemma_lists_split(entries, "no-getattr".spec_bytes());
        lemma_lists_split(entries, "no-object".spec_bytes());
        assert(c.len() == 0 || c == "no-any".spec_bytes() || c == "no-getattr".spec_bytes()
            || c == "no-object".spec_bytes());
        let st2 = if c.len() == 0 {
            st
        } else if c == "no-any".spec_bytes() {
            OptionsView { hatches: Hatches { no_any: true, ..st.hatches }, ..st }
        } else if c == "no-getattr".spec_bytes() {
            OptionsView { hatches: Hatches { no_getattr: true, ..st.hatches }, ..st }
        } else {
            OptionsView { hatches: Hatches { no_object: true, ..st.hatches }, ..st }
        };
        assert(add_hatches(st, entries) == add_hatches(st2, rest));
        law_hatch_entries_enable_their_rules(st2, rest);
        let h = Hatches {
            no_any: st.hatches.no_any || lists(entries, "no-any".spec_bytes()),
            no_getattr: st.hatches.no_getattr || lists(entries, "no-getattr".spec_bytes()),
            no_object: st.hatches.no_object || lists(entries, "no-object".spec_bytes()),
        };
        let h2 = Hatches {
            no_any: st2.hatches.no_any || lists(rest, "no-any".spec_bytes()),
            no_getattr: st2.hatches.no_getattr || lists(rest, "no-getattr".spec_bytes()),
            no_object: st2.hatches.no_object || lists(rest, "no-object".spec_bytes()),
        };
        assert(h2 == h);
        assert((OptionsView { hatches: h2, ..st2 }) =~= (OptionsView { hatches: h, ..st }));
    } else {
        assert(!lists(entries, "no-any".spec_bytes()));
        assert(!lists(entries, "no-getattr".spec_bytes()));
        assert(!lists(entries, "no-object".spec_bytes()));
        assert(st =~= (OptionsView {
            hatches: Hatches {
                no_any: st.hatches.no_any || lists(entries, "no-any".spec_bytes()),
                no_getattr: st.hatches.no_getattr || lists(entries, "no-getattr".spec_bytes()),
                no_object: st.hatches.no_object || lists(entries, "no-object".spec_bytes()),
            },
            ..st
        }));
    }
}

/// `k` holds no `->`.
pub open spec fn has_no_arrow(k: Seq<u8>) -> bool {
    forall|i: int| 0 <= i && i + 1 < k.len() ==> !(#[trigger] k[i] == '-' as u8 && k[i + 1] == '>' as u8)
}

proof fn lemma_arrow_after(k: Seq<u8>, r: Seq<u8>, i: int)
    requires
        has_no_arrow(k),
        0 <= i <= k.len(),
    ensures
        arrow_from(k + seq!['-' as u8, '>' as u8] + r, i) == Some(k.len() as int),
    decreases k.len() - i,
{
    let e = k + seq!['-' as u8, '>' as u8] + r;
    assert(e[k.len() as int] == '-' as u8);
    assert(e[k.len() as int + 1] == '>' as u8);
    if i < k.len() {
        assert(e[i] == k[i]);
        if i + 1 < k.len() {
            assert(e[i + 1] == k[i + 1]);
        }
        lemma_arrow_after(k, r, i + 1);
    }
}

/// A `--async200-blocking-calls` entry that reads, once trimmed, `k->r` with
/// no `->` in `k` adds one pattern: `k` trimmed as its glob and `r` trimmed as
/// its replacement, after those already read; nothing else changes.
pub proof fn law_pattern_entry(st: OptionsView, entry: Seq<u8>, k: Seq<u8>, r: Seq<u8>)
    requires
        trim_bytes(entry) == k + seq!['-' as u8, '>' as u8] + r,
        has_no_arrow(k),
    ensures
        add_patterns(st, seq![entry]) == (
            OptionsView { patterns: st.patterns.push((trim_bytes(k), trim_bytes(r))), ..st },
            None::<ArgErrorView>,
        ),
{
    let e = k + seq!['-' as u8, '>' as u8] + r;
    lemma_arrow_after(k, r, 0);
    assert(e.subrange(0, k.len() as int) =~= k);
    assert(e.subrange(k.len() as int + 2, e.len() as int) =~= r);
    assert(seq![entry].drop_first() =~= Seq::<Seq<u8>>::empty());
    assert(e.len() > 0);
    assert(seq![entry][0] == entry);
    let st2 = OptionsView {
        patterns: st.patterns.push((trim_bytes(e.subrange(0, k.len() as int)), trim_bytes(e.subrange(k.len() as int + 2, e.len() as int)))),
        ..st
    };
    assert(add_patterns(st, seq![entry]) == add_patterns(st2, seq![entry].drop_first()));
    assert(add_patterns(st2, Seq::<Seq<u8>>::empty()) == (st2, None::<ArgErrorView>));
}

} // verus!
