//! `.nukedignore` rules: which glob patterns a rules file yields, and whether a
//! path below a scan root is ignored by them.
use vstd::prelude::*;

use globset::{Glob, GlobSet, GlobSetBuilder};

use crate::path;
use crate::text;
use crate::text::{chars_of, lines_of, slice_chars, string_of, trimmed};

verus! {

#[verifier::external_type_specification]
#[verifier::external_body]
pub struct ExGlobSet(globset::GlobSet);

#[verifier::external_type_specification]
#[verifier::external_body]
pub struct ExGlobSetBuilder(globset::GlobSetBuilder);

#[verifier::external_type_specification]
#[verifier::external_body]
pub struct ExGlob(globset::Glob);

#[verifier::external_type_specification]
#[verifier::external_body]
pub struct ExGlobError(globset::Error);

/// The patterns of the globs a builder holds, in the order they were added.
pub uninterp spec fn builder_patterns(b: GlobSetBuilder) -> Seq<Seq<char>>;

/// The patterns of the globs a set was built from, in order.
pub uninterp spec fn glob_set_patterns(s: GlobSet) -> Seq<Seq<char>>;

/// `globset::Glob::new` accepts the pattern.
pub uninterp spec fn glob_parses(pattern: Seq<char>) -> bool;

/// `globset::GlobSetBuilder::build` succeeds for these patterns.
pub uninterp spec fn glob_set_builds(patterns: Seq<Seq<char>>) -> bool;

/// The glob made from `pattern` matches `path`.
pub uninterp spec fn glob_matches(pattern: Seq<char>, path: Seq<char>) -> bool;

/// A new, empty builder (`globset::GlobSetBuilder::new`).
#[verifier::external_body]
fn builder_new() -> (b: GlobSetBuilder)
    ensures
        builder_patterns(b) == Seq::<Seq<char>>::empty(),
{
    GlobSetBuilder::new()
}

/// The pattern a glob was made from (what `globset::Glob::glob` gives back).
pub uninterp spec fn glob_pattern(g: Glob) -> Seq<char>;

/// Parses a glob with the default options (`globset::Glob::new`). Claims: it
/// succeeds exactly when the pattern parses, and the glob keeps the pattern.
#[verifier::external_body]
fn glob_new(pattern: &str) -> (r: Result<Glob, globset::Error>)
    ensures
        r is Ok <==> glob_parses(pattern@),
        r matches Ok(g) ==> glob_pattern(g) == pattern@,
{
    Glob::new(pattern)
}

/// Adds a glob to the builder (`globset::GlobSetBuilder::add`). Claims: the
/// builder then holds the glob's pattern after those it held.
#[verifier::external_body]
fn builder_add(b: &mut GlobSetBuilder, glob: Glob)
    ensures
        builder_patterns(*final(b)) == builder_patterns(*old(b)).push(glob_pattern(glob)),
{
    b.add(glob);
}

/// Makes a glob of `pattern` and adds it to the builder; the builder is left as
/// it was when the pattern does not parse.
fn add_pattern(b: &mut GlobSetBuilder, pattern: &str) -> (r: Result<(), globset::Error>)
    ensures
        r is Ok <==> glob_parses(pattern@),
        r is Ok ==> builder_patterns(*final(b)) == builder_patterns(*old(b)).push(pattern@),
        r is Err ==> builder_patterns(*final(b)) == builder_patterns(*old(b)),
{
    match glob_new(pattern) {
        Ok(glob) => {
            builder_add(b, glob);
            Ok(())
        },
        Err(error) => Err(error),
    }
}

/// Builds the set (`globset::GlobSetBuilder::build`). Claims: whether it succeeds
/// depends on the patterns alone, it succeeds when there are none, and the set
/// holds the builder's patterns.
#[verifier::external_body]
fn builder_build(b: &GlobSetBuilder) -> (r: Result<GlobSet, globset::Error>)
    ensures
        r is Ok <==> glob_set_builds(builder_patterns(*b)),
        builder_patterns(*b).len() == 0 ==> r is Ok,
        r matches Ok(s) ==> glob_set_patterns(s) == builder_patterns(*b),
{
    b.build()
}

/// The set that holds no glob (`globset::GlobSet::empty`).
#[verifier::external_body]
fn glob_set_empty() -> (s: GlobSet)
    ensures
        glob_set_patterns(s) == Seq::<Seq<char>>::empty(),
{
    GlobSet::empty()
}

/// Some pattern's glob matches `path`.
pub open spec fn any_glob_matches(patterns: Seq<Seq<char>>, path: Seq<char>) -> bool {
    exists|i: int| 0 <= i < patterns.len() && glob_matches(#[trigger] patterns[i], path)
}

/// Whether any glob of the set matches `path` (`globset::GlobSet::is_match`).
#[verifier::external_body]
fn glob_set_is_match(s: &GlobSet, path: &str) -> (r: bool)
    ensures
        r == (exists|i: int| 0 <= i < glob_set_patterns(*s).len() && glob_matches(glob_set_patterns(*s)[i], path@)),
{
    s.is_match(path)
}

/// Why a rules file was refused.
#[derive(Debug)]
pub enum IgnoreError {
    /// A pattern (as written, without the `**/` added for bare names) is not a valid glob.
    InvalidPattern { pattern: String, error: globset::Error },
    /// The set of globs could not be built.
    Build { error: globset::Error },
}

/// Number of leading `c` characters.
pub open spec fn lead_count(s: Seq<char>, c: char) -> nat
    decreases s.len(),
{
    if s.len() > 0 && s[0] == c {
        1 + lead_count(s.drop_first(), c)
    } else {
        0
    }
}

/// Number of trailing `c` characters.
pub open spec fn trail_count(s: Seq<char>, c: char) -> nat
    decreases s.len(),
{
    if s.len() > 0 && s.last() == c {
        1 + trail_count(s.drop_last(), c)
    } else {
        0
    }
}

/// `s` without leading and trailing `/`.
pub open spec fn strip_slashes(s: Seq<char>) -> Seq<char> {
    let t = s.skip(lead_count(s, '/') as int);
    t.take(t.len() - trail_count(t, '/'))
}

/// The globs a rules line adds, each paired with the pattern as written: none for
/// a blank line, a `#` comment or a line of slashes; otherwise the pattern without
/// surrounding slashes, and for a pattern without `/` also that pattern under `**/`.
pub open spec fn line_globs(line: Seq<char>) -> Seq<(Seq<char>, Seq<char>)> {
    let t = text::trim(line);
    let p = strip_slashes(t);
    if t.len() == 0 || t[0] == '#' || p.len() == 0 {
        Seq::empty()
    } else if p.contains('/') {
        seq![(p, p)]
    } else {
        seq![(p, p), (p, seq!['*', '*', '/'] + p)]
    }
}

/// The globs of a sequence of lines, in order.
pub open spec fn lines_globs(ls: Seq<Seq<char>>) -> Seq<(Seq<char>, Seq<char>)>
    decreases ls.len(),
{
    if ls.len() == 0 {
        Seq::empty()
    } else {
        lines_globs(ls.drop_last()) + line_globs(ls.last())
    }
}

/// The globs of a rules file, in order, each paired with the pattern as written.
pub open spec fn rule_globs(content: Seq<char>) -> Seq<(Seq<char>, Seq<char>)> {
    lines_globs(text::lines(content))
}

/// The glob texts of a list of globs.
pub open spec fn glob_texts(gs: Seq<(Seq<char>, Seq<char>)>) -> Seq<Seq<char>> {
    gs.map_values(|g: (Seq<char>, Seq<char>)| g.1)
}

/// Position of the first glob that does not parse, if any.
pub open spec fn first_bad_glob(gs: Seq<(Seq<char>, Seq<char>)>) -> Option<int> {
    if exists|i: int| 0 <= i < gs.len() && !glob_parses(#[trigger] gs[i].1) {
        Some(choose|i: int| 0 <= i < gs.len() && !glob_parses(gs[i].1)
            && forall|j: int| 0 <= j < i ==> glob_parses(#[trigger] gs[j].1))
    } else {
        None
    }
}

/// Compiled ignore rules.
#[derive(Debug)]
pub struct IgnoreRules {
    set: GlobSet,
}

proof fn lemma_lead_count_is(s: Seq<char>, c: char, n: int)
    requires
        0 <= n <= s.len(),
        forall|k: int| 0 <= k < n ==> #[trigger] s[k] == c,
        n < s.len() ==> s[n] != c,
    ensures
        lead_count(s, c) == n,
    decreases s.len(),
{
    if n > 0 {
        assert forall|k: int| 0 <= k < n - 1 implies #[trigger] s.drop_first()[k] == c by {
            assert(s.drop_first()[k] == s[k + 1]);
        }
        if n - 1 < s.drop_first().len() {
            assert(s.drop_first()[n - 1] == s[n]);
        }
        lemma_lead_count_is(s.drop_first(), c, n - 1);
    }
}

proof fn lemma_trail_count_is(s: Seq<char>, c: char, n: int)
    requires
        0 <= n <= s.len(),
        forall|k: int| s.len() - n <= k < s.len() ==> #[trigger] s[k] == c,
        n < s.len() ==> s[s.len() - n - 1] != c,
    ensures
        trail_count(s, c) == n,
    decreases s.len(),
{
    if n > 0 {
        let d = s.drop_last();
        assert forall|k: int| d.len() - (n - 1) <= k < d.len() implies #[trigger] d[k] == c by {
            assert(d[k] == s[k]);
        }
        if n - 1 < d.len() {
            assert(d[d.len() - (n - 1) - 1] == s[s.len() - n - 1]);
        }
        lemma_trail_count_is(d, c, n - 1);
    }
}

fn stripped_slashes(v: &Vec<char>) -> (r: Vec<char>)
    ensures
        r@ == strip_slashes(v@),
{
    let n = v.len();
    let mut lo: usize = 0;
    while lo < n && v[lo] == '/'
        invariant
            n == v.len(),
            0 <= lo <= n,
            forall|k: int| 0 <= k < lo ==> #[trigger] v@[k] == '/',
        decreases n - lo,
    {
        lo = lo + 1;
    }
    proof {
        lemma_lead_count_is(v@, '/', lo as int);
    }
    let mut hi: usize = n;
    while hi > lo && v[hi - 1] == '/'
        invariant
            n == v.len(),
            0 <= lo <= hi <= n,
            forall|k: int| hi <= k < n ==> #[trigger] v@[k] == '/',
        decreases hi - lo,
    {
        hi = hi - 1;
    }
    proof {
        let t = v@.skip(lo as int);
        assert forall|k: int| t.len() - (n - hi) <= k < t.len() implies #[trigger] t[k] == '/' by {
            assert(t[k] == v@[k + lo]);
        }
        if n - hi < t.len() {
            assert(t[t.len() - (n - hi) - 1] == v@[hi - 1]);
        }
        lemma_trail_count_is(t, '/', (n - hi) as int);
        assert(v@.subrange(lo as int, hi as int) =~= t.take(t.len() - trail_count(t, '/')));
    }
    slice_chars(v, lo, hi)
}

impl IgnoreRules {
    /// The glob patterns in force.
    pub closed spec fn patterns(&self) -> Seq<Seq<char>> {
        glob_set_patterns(self.set)
    }

    /// Rules that ignore nothing.
    pub fn empty() -> (r: Self)
        ensures
            r.patterns() == Seq::<Seq<char>>::empty(),
    {
        IgnoreRules { set: glob_set_empty() }
    }

    /// Compiles the rules of a `.nukedignore` file.
    pub fn parse(content: &str) -> (r: Result<Self, IgnoreError>)
        ensures
            match first_bad_glob(rule_globs(content@)) {
                Some(i) => r matches Err(IgnoreError::InvalidPattern { pattern, .. })
                    && pattern@ == rule_globs(content@)[i].0,
                None => if glob_set_builds(glob_texts(rule_globs(content@))) {
                    r matches Ok(rules) && rules.patterns() == glob_texts(rule_globs(content@))
                } else {
                    r matches Err(IgnoreError::Build { .. })
                },
            },
    {
        let chars = chars_of(content);
        let ls = lines_of(&chars);
        let ghost lsv = text::views(ls@);
        let mut builder = builder_new();
        let mut i: usize = 0;
        while i < ls.len()
            invariant
                0 <= i <= ls.len(),
                lsv == text::views(ls@),
                lsv == text::lines(content@),
                first_bad_glob(lines_globs(lsv.take(i as int))) is None,
                builder_patterns(builder) == glob_texts(lines_globs(lsv.take(i as int))),
            decreases ls.len() - i,
        {
            let line = &ls[i];
            let ghost before = lines_globs(lsv.take(i as int));
            let ghost added = line_globs(line@);
            proof {
                assert(lsv.take(i + 1).drop_last() =~= lsv.take(i as int));
                assert(lsv.take(i + 1).last() == line@);
                assert(lines_globs(lsv.take(i + 1)) == before + added);
            }
            let t = trimmed(line);
            if t.len() == 0 || t[0] == '#' {
                proof {
                    assert(added =~= Seq::<(Seq<char>, Seq<char>)>::empty());
                    assert(before + added =~= before);
                }
                i = i + 1;
                continue;
            }
            let p = stripped_slashes(&t);
            if p.len() == 0 {
                proof {
                    assert(added =~= Seq::<(Seq<char>, Seq<char>)>::empty());
                    assert(before + added =~= before);
                }
                i = i + 1;
                continue;
            }
            let ps = string_of(p.as_slice());
            proof {
                assert(added[0] == (p@, p@));
            }
            match add_pattern(&mut builder, ps.as_str()) {
                Ok(()) => {},
                Err(error) => {
                    proof {
                        let gs = before + added;
                        assert(gs[before.len() as int] == added[0]);
                        assert(!glob_parses(gs[before.len() as int].1));
                        let w = choose|k: int| 0 <= k < gs.len() && !glob_parses(gs[k].1)
                            && forall|j: int| 0 <= j < k ==> glob_parses(#[trigger] gs[j].1);
                        assert forall|j: int| 0 <= j < before.len() implies glob_parses(#[trigger] gs[j].1) by {
                            assert(gs[j] == before[j]);
                            if !glob_parses(before[j].1) {
                                assert(exists|k: int| 0 <= k < before.len() && !glob_parses(#[trigger] before[k].1));
                            }
                        }
                        assert(0 <= before.len() < gs.len() && !glob_parses(gs[before.len() as int].1));
                        if w < before.len() {
                        } else if w > before.len() {
                            assert(glob_parses(gs[before.len() as int].1));
                        }
                        lemma_first_bad_extends(lsv, i + 1, before.len() as int);
                    }
                    return Err(IgnoreError::InvalidPattern { pattern: ps, error });
                },
            }
            if !text::has_char(&p, '/') {
                let mut q: Vec<char> = Vec::new();
                q.push('*');
                q.push('*');
                q.push('/');
                text::extend_vec(&mut q, &p);
                let qs = string_of(q.as_slice());
                assert(qs@ == seq!['*', '*', '/'] + p@);
                match add_pattern(&mut builder, qs.as_str()) {
                    Ok(()) => {},
                    Err(error) => {
                        proof {
                            let gs = before + added;
                            let at: int = before.len() as int + 1;
                            assert(gs[at] == added[1]);
                            assert(gs[before.len() as int] == added[0]);
                            let w = choose|k: int| 0 <= k < gs.len() && !glob_parses(gs[k].1)
                                && forall|j: int| 0 <= j < k ==> glob_parses(#[trigger] gs[j].1);
                            assert forall|j: int| 0 <= j < at implies glob_parses(#[trigger] gs[j].1) by {
                                if j < before.len() {
                                    assert(gs[j] == before[j]);
                                    if !glob_parses(before[j].1) {
                                        assert(exists|k: int| 0 <= k < before.len() && !glob_parses(#[trigger] before[k].1));
                                    }
                                }
                            }
                            assert(0 <= at < gs.len() && !glob_parses(gs[at].1));
                            if w < at {
                            } else if w > at {
                                assert(glob_parses(gs[at].1));
                            }
                            lemma_first_bad_extends(lsv, i + 1, at);
                        }
                        return Err(IgnoreError::InvalidPattern { pattern: ps, error });
                    },
                }
                proof {
                    assert(glob_texts(before + added) =~= glob_texts(before).push(p@).push(qs@));
                    assert forall|j: int| 0 <= j < (before + added).len() implies glob_parses(#[trigger] (before + added)[j].1) by {
                        if j < before.len() {
                            assert((before + added)[j] == before[j]);
                            if !glob_parses(before[j].1) {
                                assert(exists|k: int| 0 <= k < before.len() && !glob_parses(#[trigger] before[k].1));
                            }
                        }
                    }
                }
            } else {
                proof {
                    assert(glob_texts(before + added) =~= glob_texts(before).push(p@));
                    assert forall|j: int| 0 <= j < (before + added).len() implies glob_parses(#[trigger] (before + added)[j].1) by {
                        if j < before.len() {
                            assert((before + added)[j] == before[j]);
                            if !glob_parses(before[j].1) {
                                assert(exists|k: int| 0 <= k < before.len() && !glob_parses(#[trigger] before[k].1));
                            }
                        }
                    }
                }
            }
            i = i + 1;
        }
        proof {
            assert(lsv.take(ls.len() as int) =~= lsv);
        }
        match builder_build(&builder) {
            Ok(set) => Ok(IgnoreRules { set }),
            Err(error) => Err(IgnoreError::Build { error }),
        }
    }

    /// Whether `path`, taken relative to `root`, matches a rule.
    pub fn is_ignored(&self, root: &str, p: &str) -> (r: bool)
        ensures
            r == match path::strip_prefix_text(p@, root@) {
                Some(rel) => any_glob_matches(self.patterns(), rel),
                None => false,
            },
    {
        match path::strip_prefix(p, root) {
            Some(rel) => glob_set_is_match(&self.set, rel.as_str()),
            None => false,
        }
    }
}

/// A glob that fails first within the globs of the first `n` lines fails first
/// within all of them.
proof fn lemma_first_bad_extends(ls: Seq<Seq<char>>, n: int, at: int)
    requires
        0 <= n <= ls.len(),
        0 <= at < lines_globs(ls.take(n)).len(),
        !glob_parses(lines_globs(ls.take(n))[at].1),
        forall|j: int| 0 <= j < at ==> glob_parses(#[trigger] lines_globs(ls.take(n))[j].1),
    ensures
        first_bad_glob(lines_globs(ls)) == Some(at),
        lines_globs(ls)[at] == lines_globs(ls.take(n))[at],
    decreases ls.len() - n,
{
    if n < ls.len() {
        assert(ls.take(n + 1).drop_last() =~= ls.take(n));
        let g = lines_globs(ls.take(n + 1));
        assert(g == lines_globs(ls.take(n)) + line_globs(ls.take(n + 1).last()));
        assert forall|j: int| 0 <= j < at implies glob_parses(#[trigger] g[j].1) by {
            assert(g[j] == lines_globs(ls.take(n))[j]);
        }
        assert(g[at] == lines_globs(ls.take(n))[at]);
        lemma_first_bad_extends(ls, n + 1, at);
    } else {
        assert(ls.take(n) =~= ls);
        let gs = lines_globs(ls);
        assert(0 <= at < gs.len() && !glob_parses(gs[at].1));
        let w = choose|k: int| 0 <= k < gs.len() && !glob_parses(gs[k].1)
            && forall|j: int| 0 <= j < k ==> glob_parses(#[trigger] gs[j].1);
        assert(0 <= at < gs.len() && !glob_parses(gs[at].1) && forall|j: int| 0 <= j < at ==> glob_parses(#[trigger] gs[j].1));
        if w < at {
        } else if w > at {
            assert(glob_parses(gs[at].1));
        }
    }
}

proof fn lemma_lead_count_bound(s: Seq<char>, c: char)
    ensures
        lead_count(s, c) <= s.len(),
        lead_count(s, c) < s.len() ==> s[lead_count(s, c) as int] != c,
    decreases s.len(),
{
    if s.len() > 0 && s[0] == c {
        lemma_lead_count_bound(s.drop_first(), c);
        if lead_count(s, c) < s.len() {
            assert(s[lead_count(s, c) as int] == s.drop_first()[lead_count(s.drop_first(), c) as int]);
        }
    }
}

proof fn lemma_trail_count_bound(s: Seq<char>, c: char)
    ensures
        trail_count(s, c) <= s.len(),
        trail_count(s, c) < s.len() ==> s[s.len() - trail_count(s, c) - 1] != c,
    decreases s.len(),
{
    if s.len() > 0 && s.last() == c {
        lemma_trail_count_bound(s.drop_last(), c);
        if trail_count(s, c) < s.len() {
            assert(s[s.len() - trail_count(s, c) - 1] == s.drop_last()[s.drop_last().len() - trail_count(
                s.drop_last(),
                c,
            ) - 1]);
        }
    }
}

proof fn lemma_lead_count_append(s: Seq<char>, x: Seq<char>, c: char)
    ensures
        lead_count(s, c) < s.len() ==> lead_count(s + x, c) == lead_count(s, c),
        lead_count(s, c) == s.len() ==> lead_count(s + x, c) == s.len() + lead_count(x, c),
    decreases s.len(),
{
    lemma_lead_count_bound(s, c);
    if s.len() == 0 {
        assert(s + x =~= x);
    } else {
        assert((s + x)[0] == s[0]);
        assert((s + x).drop_first() =~= s.drop_first() + x);
        lemma_lead_count_append(s.drop_first(), x, c);
    }
}

/// A pattern without its surrounding slashes has none at either end.
proof fn lemma_strip_slashes_ends(s: Seq<char>)
    ensures
        strip_slashes(s).len() > 0 ==> strip_slashes(s)[0] != '/' && strip_slashes(s).last() != '/',
{
    lemma_lead_count_bound(s, '/');
    let t = s.skip(lead_count(s, '/') as int);
    lemma_trail_count_bound(t, '/');
    let p = strip_slashes(s);
    if p.len() > 0 {
        assert(p[0] == t[0]);
        assert(t[0] == s[lead_count(s, '/') as int]);
        assert(p.last() == t[t.len() - trail_count(t, '/') - 1]);
    }
}

/// The shape of every glob a line gives: a pattern that is not empty and has no
/// `/` at either end, read either as written or, for a pattern without `/`,
/// under `**/`.
pub open spec fn well_shaped(g: (Seq<char>, Seq<char>)) -> bool {
    &&& g.0.len() > 0
    &&& g.0[0] != '/'
    &&& g.0.last() != '/'
    &&& (g.1 == g.0 || (g.1 == seq!['*', '*', '/'] + g.0 && !g.0.contains('/')))
}

proof fn lemma_line_globs_shape(line: Seq<char>)
    ensures
        forall|i: int| 0 <= i < line_globs(line).len() ==> well_shaped(#[trigger] line_globs(line)[i]),
{
    lemma_strip_slashes_ends(text::trim(line));
}

/// Every glob of a rules file has a non-empty pattern with no `/` at either end;
/// it is matched as written, or, for a pattern without `/`, also under `**/`.
pub proof fn lemma_rule_globs_shape(content: Seq<char>)
    ensures
        forall|i: int| 0 <= i < rule_globs(content).len() ==> well_shaped(#[trigger] rule_globs(content)[i]),
{
    lemma_lines_globs_shape(text::lines(content));
}

proof fn lemma_lines_globs_shape(ls: Seq<Seq<char>>)
    ensures
        forall|i: int| 0 <= i < lines_globs(ls).len() ==> well_shaped(#[trigger] lines_globs(ls)[i]),
    decreases ls.len(),
{
    if ls.len() > 0 {
        lemma_lines_globs_shape(ls.drop_last());
        lemma_line_globs_shape(ls.last());
        let a = lines_globs(ls.drop_last());
        let b = line_globs(ls.last());
        assert forall|i: int| 0 <= i < lines_globs(ls).len() implies well_shaped(#[trigger] lines_globs(ls)[i]) by {
            if i < a.len() {
                assert(lines_globs(ls)[i] == a[i]);
            } else {
                assert(lines_globs(ls)[i] == b[i - a.len()]);
            }
        }
    }
}

proof fn lemma_trim_plain(x: Seq<char>)
    requires
        x.len() > 0,
        !text::is_ws(x[0]),
        !text::is_ws(x.last()),
    ensures
        text::trim(x) == x,
{
    text::lemma_lead_ws_is(x, 0);
    assert(x.skip(0) =~= x);
    text::lemma_trail_ws_is(x, 0);
    assert(x.take(x.len() as int) =~= x);
}

/// Slashes around a rules line do not change it: `/name` and `name/` give the
/// same globs as `name` (for a line that is not a comment and has no space
/// around it).
pub proof fn lemma_slashes_ignored(l: Seq<char>)
    requires
        l.len() > 0,
        l[0] != '#',
        !text::is_ws(l[0]),
        !text::is_ws(l.last()),
    ensures
        line_globs(seq!['/'] + l) == line_globs(l),
        line_globs(l + seq!['/']) == line_globs(l),
{
    let front = seq!['/'] + l;
    let back = l + seq!['/'];
    assert(front[0] == '/' && front.last() == l.last());
    assert(back[0] == l[0] && back.last() == '/');
    lemma_trim_plain(l);
    lemma_trim_plain(front);
    lemma_trim_plain(back);
    lemma_lead_count_bound(l, '/');
    // a leading slash is dropped with the others
    assert(front.drop_first() =~= l);
    assert(lead_count(front, '/') == 1 + lead_count(l, '/'));
    assert(front.skip(lead_count(front, '/') as int) =~= l.skip(lead_count(l, '/') as int));
    assert(strip_slashes(front) == strip_slashes(l));
    // a trailing slash is dropped with the others
    lemma_lead_count_bound(l, '/');
    lemma_lead_count_append(l, seq!['/'], '/');
    let t = l.skip(lead_count(l, '/') as int);
    if lead_count(l, '/') == l.len() {
        let one = seq!['/'];
        assert(one.len() == 1 && one[0] == '/');
        assert(one.drop_first() =~= Seq::<char>::empty());
        assert(lead_count(one.drop_first(), '/') == 0);
        assert(lead_count(one, '/') == 1);
        assert(strip_slashes(back).len() == 0);
        assert(strip_slashes(l).len() == 0);
    } else {
        let tb = back.skip(lead_count(back, '/') as int);
        assert(tb =~= t + seq!['/']);
        assert(tb.drop_last() =~= t);
        assert(trail_count(tb, '/') == 1 + trail_count(t, '/'));
        lemma_trail_count_bound(t, '/');
        assert(lead_count(back, '/') == lead_count(l, '/'));
        assert(strip_slashes(back) == tb.take(tb.len() - trail_count(tb, '/')));
        assert(tb.take(tb.len() - trail_count(tb, '/')) =~= t.take(t.len() - trail_count(t, '/')));
        assert(strip_slashes(back) =~= strip_slashes(l));
    }
}

} // verus!
