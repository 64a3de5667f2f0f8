//! The multi-pattern matcher that carries out a substitution.

use crate::small_str::small_texts;
use crate::substitution::all_nonempty;
use crate::substitution::substituted;
use aho_corasick::AhoCorasick;
use aho_corasick::BuildError;
use aho_corasick::MatchError;
use aho_corasick::MatchKind;
use compact_str::CompactString;
use vstd::prelude::*;

verus! {

/// The matcher, of which the contracts know only what the two names
/// below say.
#[verifier::external_type_specification]
#[verifier::external_body]
pub struct ExAhoCorasick(AhoCorasick);

/// Why a matcher could not be built.
#[verifier::external_type_specification]
#[verifier::external_body]
pub struct ExBuildError(BuildError);

/// Why a matcher could not run a search.
#[verifier::external_type_specification]
#[verifier::external_body]
pub struct ExMatchError(MatchError);

/// The patterns that a matcher was built from, in the order given.
pub uninterp spec fn matcher_patterns(m: AhoCorasick) -> Seq<Seq<char>>;

/// The matcher was built to report the leftmost match and, of the
/// matches that begin at one place, that of the earliest pattern.
pub uninterp spec fn matcher_leftmost_first(m: AhoCorasick) -> bool;

/// The matcher was built to run searches that may begin anywhere in
/// the text.
pub uninterp spec fn matcher_unanchored(m: AhoCorasick) -> bool;

/// Whether a matcher can be built from `patterns`: the builder fails
/// where the patterns are too many or too long for its indices, which
/// depends on the patterns alone.
pub uninterp spec fn matcher_builds(patterns: Seq<Seq<char>>) -> bool;

/// What a leftmost-first matcher built from `patterns` makes of `text`
/// when every match of pattern `k` gives way to `values[k]`.
pub uninterp spec fn replaced(
    patterns: Seq<Seq<char>>,
    text: Seq<char>,
    values: Seq<Seq<char>>,
) -> Seq<char>;

/// `AhoCorasickBuilder::build` on a builder that is new but for its
/// match kind, which is `MatchKind::LeftmostFirst`. Whether the
/// automaton can be built depends on the patterns alone; without
/// patterns it always can, since the builder fails only where an index
/// of a state, a pattern or a pattern's length passes its limit, and
/// without patterns it makes its few fixed states only. An automaton
/// that was built holds the patterns given, has that match kind, and
/// has the start kind of a new builder, which is unanchored.
#[verifier::external_body]
pub(crate) fn build_matcher(patterns: &Vec<CompactString>) -> (r: Result<AhoCorasick, BuildError>)
    ensures
        r is Ok <==> matcher_builds(small_texts(patterns@)),
        patterns@.len() == 0 ==> r is Ok,
        r matches Ok(m) ==> matcher_leftmost_first(m) && matcher_unanchored(m)
            && matcher_patterns(m) == small_texts(patterns@),
{
    AhoCorasick::builder().match_kind(MatchKind::LeftmostFirst).build(patterns)
}

/// `AhoCorasick::try_replace_all` on a leftmost-first matcher for
/// unanchored searches. It needs one value for each pattern. It
/// returns an error only for a matcher that cannot search unanchored,
/// so here it returns a text. That text depends on the patterns, the
/// text and the values alone. Where no pattern is empty it is the text
/// with the leftmost matches replaced, one after the other without
/// overlap, the earliest pattern taken where several match at one
/// place: what `substituted` says.
#[verifier::external_body]
pub(crate) fn replace_all(m: &AhoCorasick, text: &str, values: &Vec<CompactString>) -> (r: Result<
    String,
    MatchError,
>)
    requires
        matcher_leftmost_first(*m),
        matcher_unanchored(*m),
        values@.len() == matcher_patterns(*m).len(),
    ensures
        r is Ok,
        r matches Ok(s) ==> s@ == replaced(matcher_patterns(*m), text@, small_texts(values@)),
        r matches Ok(s) ==> (all_nonempty(matcher_patterns(*m)) ==> s@ == substituted(
            matcher_patterns(*m),
            small_texts(values@),
            text@,
        )),
{
    m.try_replace_all(text, &values[..])
}

} // verus!
