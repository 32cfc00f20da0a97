use vstd::prelude::*;

verus! {

/// Whether a glob pattern matches a path, as decided by the external glob
/// matcher. The matcher's answer is a pure function of the pattern and path
/// texts; its full matching grammar (wildcards, character classes, braces) is
/// not restated here, so contracts that depend on it speak of this name.
pub uninterp spec fn glob_matches(pattern: Seq<char>, path: Seq<char>) -> bool;

/// Relies on glob_match::glob_match: a stateless matcher whose result depends
/// only on the pattern and path strings.
#[verifier::external_body]
pub(crate) fn matches_path(pattern: &str, path: &str) -> (r: bool)
    ensures
        r == glob_matches(pattern@, path@),
{
    glob_match::glob_match(pattern, path)
}

} // verus!
