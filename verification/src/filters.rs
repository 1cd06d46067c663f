use globset::{Glob, GlobSet, GlobSetBuilder};
use vstd::prelude::*;

use crate::error::FastRegexError;

verus! {

/// `globset::GlobSet`, a compiled set of glob patterns.
#[verifier::external_type_specification]
#[verifier::external_body]
pub struct ExGlobSet(GlobSet);

/// `globset::GlobSetBuilder`, the patterns gathered for a set.
#[verifier::external_type_specification]
#[verifier::external_body]
pub struct ExGlobSetBuilder(GlobSetBuilder);

/// The patterns added to a builder, in order.
pub uninterp spec fn builder_patterns(b: GlobSetBuilder) -> Seq<Seq<char>>;

/// The patterns a set was built from, in order.
pub uninterp spec fn set_patterns(s: GlobSet) -> Seq<Seq<char>>;

/// Whether `globset::Glob::new` accepts the pattern.
pub uninterp spec fn spec_glob_valid(pattern: Seq<char>) -> bool;

/// Whether `globset::GlobSetBuilder::build` succeeds on these patterns.
pub uninterp spec fn spec_globset_builds(patterns: Seq<Seq<char>>) -> bool;

/// What `globset::GlobSet::is_match` answers for a set of these patterns
/// and the path.
pub uninterp spec fn spec_globset_match(patterns: Seq<Seq<char>>, path: Seq<char>) -> bool;

/// An empty builder.
///
/// Trusted: calls `GlobSetBuilder::new`, which starts with no patterns.
#[verifier::external_body]
fn new_builder() -> (b: GlobSetBuilder)
    ensures
        builder_patterns(b) == Seq::<Seq<char>>::empty(),
{
    GlobSetBuilder::new()
}

/// Parses `pattern` and adds it to the builder, or gives the parse error's
/// message.
///
/// Trusted: calls `Glob::new` on the pattern and, on success,
/// `GlobSetBuilder::add`, which appends it to the builder's patterns; on a
/// parse error the builder is left as it was.
#[verifier::external_body]
fn add_glob(b: &mut GlobSetBuilder, pattern: &str) -> (r: Result<(), String>)
    ensures
        r is Ok <==> spec_glob_valid(pattern@),
        r is Ok ==> builder_patterns(*final(b)) == builder_patterns(*old(b)).push(pattern@),
        r is Err ==> builder_patterns(*final(b)) == builder_patterns(*old(b)),
{
    match Glob::new(pattern) {
        Ok(glob) => {
            b.add(glob);
            Ok(())
        },
        Err(e) => Err(e.to_string()),
    }
}

/// Compiles the builder's patterns into a set, or gives the error's message.
///
/// Trusted: calls `GlobSetBuilder::build`; the set holds the builder's
/// patterns. Whether building succeeds is named, not stated.
#[verifier::external_body]
fn build_set(b: &GlobSetBuilder) -> (r: Result<GlobSet, String>)
    ensures
        r is Ok <==> spec_globset_builds(builder_patterns(*b)),
        r matches Ok(s) ==> set_patterns(s) == builder_patterns(*b),
{
    b.build().map_err(|e| e.to_string())
}

/// Whether some pattern of the set matches `path`.
///
/// Trusted: calls `GlobSet::is_match`; the answer is a function of the
/// set's patterns and the path.
#[verifier::external_body]
fn set_matches(s: &GlobSet, path: &str) -> (r: bool)
    ensures
        r == spec_globset_match(set_patterns(*s), path@),
{
    s.is_match(path)
}

/// The patterns of the strings.
pub open spec fn patterns_of(s: Seq<String>) -> Seq<Seq<char>> {
    s.map_values(|x: String| x@)
}

/// Whether every pattern parses and, if there is any, the set builds.
pub open spec fn compiles(ps: Seq<Seq<char>>) -> bool {
    &&& forall|i: int| 0 <= i < ps.len() ==> #[trigger] spec_glob_valid(ps[i])
    &&& ps.len() > 0 ==> spec_globset_builds(ps)
}

/// Whether a filter with these allow and exclude patterns (`None` for no
/// patterns) lets `path` through.
pub open spec fn spec_allows(
    allow: Option<Seq<Seq<char>>>,
    exclude: Option<Seq<Seq<char>>>,
    path: Seq<char>,
) -> bool {
    &&& allow matches Some(ps) ==> spec_globset_match(ps, path)
    &&& !(exclude matches Some(ps) && spec_globset_match(ps, path))
}

/// Allow and exclude glob filters on paths.
pub struct PathFilter {
    allow: Option<GlobSet>,
    exclude: Option<GlobSet>,
}

/// The patterns of a compiled set, if any.
pub open spec fn opt_patterns(s: Option<GlobSet>) -> Option<Seq<Seq<char>>> {
    match s {
        Some(g) => Some(set_patterns(g)),
        None => None,
    }
}

/// `None` for no patterns, else the patterns.
pub open spec fn nonempty(ps: Seq<Seq<char>>) -> Option<Seq<Seq<char>>> {
    if ps.len() == 0 {
        None
    } else {
        Some(ps)
    }
}

/// Compiles the patterns of `first` then `second` into one set; `None` when
/// there are none.
fn compile_set(first: &[String], second: &[String]) -> (r: Result<Option<GlobSet>, FastRegexError>)
    ensures
        r is Ok <==> compiles(patterns_of(first@ + second@)),
        r matches Ok(s) ==> opt_patterns(s) == nonempty(patterns_of(first@ + second@)),
        r matches Err(e) ==> e is Glob,
{
    let ghost all = patterns_of(first@ + second@);
    let mut builder = new_builder();
    for i in 0..first.len()
        invariant
            all == patterns_of(first@ + second@),
            builder_patterns(builder) == all.take(i as int),
            forall|k: int| 0 <= k < i ==> #[trigger] spec_glob_valid(all[k]),
    {
        assert(all[i as int] == first@[i as int]@);
        match add_glob(&mut builder, first[i].as_str()) {
            Ok(()) => {},
            Err(msg) => {
                return Err(FastRegexError::Glob(msg));
            },
        }
        assert(all.take(i + 1) =~= all.take(i as int).push(first@[i as int]@));
    }
    for j in 0..second.len()
        invariant
            all == patterns_of(first@ + second@),
            builder_patterns(builder) == all.take(first@.len() + j),
            forall|k: int| 0 <= k < first@.len() + j ==> #[trigger] spec_glob_valid(all[k]),
    {
        assert(all[first@.len() + j] == second@[j as int]@);
        match add_glob(&mut builder, second[j].as_str()) {
            Ok(()) => {},
            Err(msg) => {
                return Err(FastRegexError::Glob(msg));
            },
        }
        assert(all.take(first@.len() + j + 1) =~= all.take(first@.len() + j).push(
            second@[j as int]@,
        ));
    }
    assert(all.take(all.len() as int) =~= all);
    if first.len() == 0 && second.len() == 0 {
        return Ok(None);
    }
    match build_set(&builder) {
        Ok(set) => Ok(Some(set)),
        Err(msg) => Err(FastRegexError::Glob(msg)),
    }
}

impl PathFilter {
    /// The allow patterns (those of `allow` and `extra_globs`), if any.
    pub closed spec fn allow_patterns(&self) -> Option<Seq<Seq<char>>> {
        opt_patterns(self.allow)
    }

    /// The exclude patterns, if any.
    pub closed spec fn exclude_patterns(&self) -> Option<Seq<Seq<char>>> {
        opt_patterns(self.exclude)
    }

    /// A filter that lets through paths matching some allow glob (or any
    /// path when there is none) unless they match an exclude glob.
    pub fn new(allow: &[String], extra_globs: &[String], exclude: &[String]) -> (r: Result<
        PathFilter,
        FastRegexError,
    >)
        ensures
            r is Ok <==> compiles(patterns_of(allow@ + extra_globs@)) && compiles(
                patterns_of(exclude@),
            ),
            r matches Err(e) ==> e is Glob,
            r matches Ok(f) ==> f.allow_patterns() == nonempty(patterns_of(allow@ + extra_globs@))
                && f.exclude_patterns() == nonempty(patterns_of(exclude@)),
    {
        let allow_set = match compile_set(allow, extra_globs) {
            Ok(s) => s,
            Err(e) => {
                return Err(e);
            },
        };
        let none: Vec<String> = Vec::new();
        let exclude_set = match compile_set(exclude, none.as_slice()) {
            Ok(s) => s,
            Err(e) => {
                assert(exclude@ + none@ =~= exclude@);
                return Err(e);
            },
        };
        assert(exclude@ + none@ =~= exclude@);
        Ok(PathFilter { allow: allow_set, exclude: exclude_set })
    }

    /// Whether `path` passes the filter.
    pub fn allows(&self, path: &str) -> (r: bool)
        ensures
            r == spec_allows(self.allow_patterns(), self.exclude_patterns(), path@),
    {
        let allowed = match &self.allow {
            Some(set) => set_matches(set, path),
            None => true,
        };
        if !allowed {
            return false;
        }
        match &self.exclude {
            Some(set) => !set_matches(set, path),
            None => true,
        }
    }
}

} // verus!
