//! Single-pass substitution of placeholders in a template.

use crate::error::Error;
use crate::laws::lemma_no_bindings_unchanged;
use crate::matcher::build_matcher;
use crate::matcher::matcher_builds;
use crate::matcher::replace_all;
use crate::matcher::replaced;
use crate::model::firsts;
use crate::model::pair_texts;
use crate::model::seconds;
use crate::small_str::small_from_str;
use crate::small_str::small_texts;
use aho_corasick::BuildError;
use aho_corasick::MatchError;
use compact_str::CompactString;
use vstd::prelude::*;

verus! {

/// The first of `patterns`, from index `from` on, with which `text`
/// begins; `None` where it begins with none of them.
pub open spec fn first_match(patterns: Seq<Seq<char>>, text: Seq<char>, from: int) -> Option<int>
    decreases patterns.len() - from,
{
    if from < 0 || from >= patterns.len() {
        None
    } else if patterns[from].is_prefix_of(text) {
        Some(from)
    } else {
        first_match(patterns, text, from + 1)
    }
}

/// No pattern is the empty text.
pub open spec fn all_nonempty(patterns: Seq<Seq<char>>) -> bool {
    forall|k: int| 0 <= k < patterns.len() ==> (#[trigger] patterns[k]).len() > 0
}

/// What one pass over `text` from left to right leaves: where the rest
/// of the text begins with a pattern, the value of the first such
/// pattern takes the place of the pattern and the pass goes on behind
/// it; elsewhere one character is kept. A value that was put in is
/// never read again.
pub open spec fn substituted(
    patterns: Seq<Seq<char>>,
    values: Seq<Seq<char>>,
    text: Seq<char>,
) -> Seq<char>
    recommends
        values.len() == patterns.len(),
    decreases text.len(),
{
    if text.len() == 0 {
        text
    } else {
        match first_match(patterns, text, 0) {
            Some(k) if 0 < patterns[k].len() <= text.len() => values[k] + substituted(
                patterns,
                values,
                text.skip(patterns[k].len() as int),
            ),
            _ => seq![text[0]] + substituted(patterns, values, text.skip(1)),
        }
    }
}

/// `out` is what the matcher makes of `template` when each of
/// `names` gives way to the value at its index: without an empty name
/// that is what one pass from left to right leaves, and without names
/// the template itself.
pub open spec fn is_replacement(
    out: Seq<char>,
    template: Seq<char>,
    names: Seq<Seq<char>>,
    values: Seq<Seq<char>>,
) -> bool {
    &&& out == replaced(names, template, values)
    &&& all_nonempty(names) ==> out == substituted(names, values, template)
    &&& names.len() == 0 ==> out == template
}

/// `out` is what a substitution makes of `template` under the
/// bindings, which are pairs of placeholder and value.
pub open spec fn is_substitution(
    out: Seq<char>,
    template: Seq<char>,
    bindings: Seq<(Seq<char>, Seq<char>)>,
) -> bool {
    is_replacement(out, template, firsts(bindings), seconds(bindings))
}

/// The error for a matcher that could not be built: it carries what
/// the builder says of its failure.
pub fn build_failed(e: &BuildError) -> (r: Error)
    ensures
        r matches Error::AhoCorasickBuild(text) && vstd::string::to_string_from_display_ensures::<
            BuildError,
        >(e, text),
{
    Error::AhoCorasickBuild(e.to_string())
}

/// What a substitution returns for what the search returned: the text
/// as it came, or the error of the search as it came.
pub fn replace_finished(outcome: Result<String, MatchError>) -> (r: Result<String, Error>)
    ensures
        match outcome {
            Ok(text) => r == Ok::<String, Error>(text),
            Err(e) => r == Err::<String, Error>(Error::AhoCorasickMatch(e)),
        },
{
    match outcome {
        Ok(text) => Ok(text),
        Err(e) => Err(Error::AhoCorasickMatch(e)),
    }
}

/// Builds the matcher for `names` and lets it replace each match in
/// `template` by the value at the index of the name. This fails only
/// where the matcher cannot be built, which without names it always
/// can.
pub(crate) fn replace_bound(
    template: &str,
    names: &Vec<CompactString>,
    values: &Vec<CompactString>,
) -> (r: Result<String, Error>)
    requires
        names@.len() == values@.len(),
    ensures
        match r {
            Ok(s) => is_replacement(
                s@,
                template@,
                small_texts(names@),
                small_texts(values@),
            ),
            Err(e) => e@ is AhoCorasickBuild,
        },
        r is Ok <==> matcher_builds(small_texts(names@)),
        names@.len() == 0 ==> r is Ok,
{
    proof {
        if names@.len() == 0 {
            assert(small_texts(names@) =~= Seq::empty());
            assert(small_texts(values@) =~= Seq::empty());
            lemma_no_bindings_unchanged(template@);
        }
    }
    match build_matcher(names) {
        Err(e) => Err(build_failed(&e)),
        Ok(matcher) => replace_finished(replace_all(&matcher, template, values)),
    }
}

/// One pass over `template` from left to right in which each
/// occurrence of a bound placeholder gives way to its value. The
/// bindings are pairs of placeholder and value. Where the rest of the
/// template begins with several placeholders, the one bound first is
/// taken; a value that was put in is never searched again. Without
/// bindings the template comes out unchanged. The pass fails only
/// where no matcher can be built from the placeholders, with
/// `AhoCorasickBuild`; without bindings it never fails.
pub fn substitute(template: &str, bindings: &[(&str, &str)]) -> (r: Result<String, Error>)
    ensures
        match r {
            Ok(s) => is_substitution(s@, template@, pair_texts(bindings@)),
            Err(e) => e@ is AhoCorasickBuild,
        },
        r is Ok <==> matcher_builds(firsts(pair_texts(bindings@))),
        bindings@.len() == 0 ==> r is Ok,
{
    let ghost pairs = pair_texts(bindings@);
    let mut names: Vec<CompactString> = Vec::new();
    let mut values: Vec<CompactString> = Vec::new();
    let mut i: usize = 0;
    while i < bindings.len()
        invariant
            i <= bindings@.len(),
            pairs == pair_texts(bindings@),
            small_texts(names@) == firsts(pairs).take(i as int),
            small_texts(values@) == seconds(pairs).take(i as int),
        decreases bindings@.len() - i,
    {
        names.push(small_from_str(bindings[i].0));
        values.push(small_from_str(bindings[i].1));
        i += 1;
        proof {
            assert(firsts(pairs).take(i as int) =~= firsts(pairs).take(i - 1).push(
                bindings@[i - 1].0@,
            ));
            assert(seconds(pairs).take(i as int) =~= seconds(pairs).take(i - 1).push(
                bindings@[i - 1].1@,
            ));
        }
    }
    proof {
        assert(firsts(pairs).take(i as int) =~= firsts(pairs));
        assert(seconds(pairs).take(i as int) =~= seconds(pairs));
    }
    replace_bound(template, &names, &values)
}

} // verus!
