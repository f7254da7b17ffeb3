//! Glob sets from the `globset` crate, behind trusted items.
use vstd::prelude::*;

use globset::{GlobSet, GlobSetBuilder};

verus! {

broadcast use vstd::string::group_string_axioms;

#[verifier::external_type_specification]
#[verifier::external_body]
pub struct ExGlobSetBuilder(GlobSetBuilder);

#[verifier::external_type_specification]
#[verifier::external_body]
pub struct ExGlobSet(GlobSet);

#[verifier::external_type_specification]
#[verifier::external_body]
pub struct ExGlobError(globset::Error);

/// The patterns added to a builder, in order.
pub uninterp spec fn builder_patterns(b: GlobSetBuilder) -> Seq<Seq<char>>;

/// The patterns of a built set, in order.
pub uninterp spec fn set_patterns(s: GlobSet) -> Seq<Seq<char>>;

/// `GlobSetBuilder::build` succeeds on a builder holding these patterns.
pub uninterp spec fn globset_builds(patterns: Seq<Seq<char>>) -> bool;

/// `globset::Glob::new` accepts the pattern.
pub uninterp spec fn glob_parses(pattern: Seq<char>) -> bool;

/// `GlobSet::is_match` of a set built from these patterns, for this path.
pub uninterp spec fn globset_matches(patterns: Seq<Seq<char>>, path: Seq<char>) -> bool;

/// `GlobSetBuilder::new`: a builder with no patterns.
#[verifier::external_body]
pub(crate) fn new_builder() -> (b: GlobSetBuilder)
    ensures
        builder_patterns(b) == Seq::<Seq<char>>::empty(),
{
    GlobSetBuilder::new()
}

/// `globset::Glob::new` on the pattern, then `GlobSetBuilder::add` of the glob: the
/// pattern is added when it parses, and the builder is left as it was when it does not.
#[verifier::external_body]
pub(crate) fn add_pattern(b: &mut GlobSetBuilder, pattern: &str) -> (r: Result<(), globset::Error>)
    ensures
        r is Ok <==> glob_parses(pattern@),
        r is Ok ==> builder_patterns(*final(b)) == builder_patterns(*old(b)).push(pattern@),
        r is Err ==> builder_patterns(*final(b)) == builder_patterns(*old(b)),
{
    let g = globset::Glob::new(pattern)?;
    b.add(g);
    Ok(())
}

/// `GlobSetBuilder::build`: it succeeds or fails by the builder's patterns alone (it
/// compiles them into one matcher), and the set it builds holds those patterns.
#[verifier::external_body]
pub(crate) fn build_set(b: &GlobSetBuilder) -> (r: Result<GlobSet, globset::Error>)
    ensures
        r is Ok <==> globset_builds(builder_patterns(*b)),
        r matches Ok(s) ==> set_patterns(s) == builder_patterns(*b),
{
    b.build()
}

/// `GlobSet::is_match` on a path given as a string.
#[verifier::external_body]
pub(crate) fn set_is_match(s: &GlobSet, path: &str) -> (r: bool)
    ensures
        r == globset_matches(set_patterns(*s), path@),
{
    s.is_match(path)
}

} // verus!
