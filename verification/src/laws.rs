//! What holds of the store and of substitution, whatever the input.

use crate::error::ErrorView;
use crate::model::first_fault;
use crate::model::firsts;
use crate::model::gives;
use crate::model::is_language_table;
use crate::model::Fault;
use crate::model::lemma_first_fault_stays;
use crate::model::lemma_no_fault;
use crate::model::lemma_no_repeat;
use crate::model::repeats;
use crate::model::TranslatorView;
use crate::substitution::first_match;
use crate::substitution::substituted;
use crate::text_order::lemma_ascending_unique;
use crate::text_order::lemma_text_lt_irreflexive;
use crate::text_order::same_texts;
use crate::text_order::strictly_ascending;
use vstd::prelude::*;

verus! {

/// The ids of the languages depend on the names alone, not on their
/// order or number: a list of names and the same list sorted and freed
/// of duplicates get the same table, which is that sorted list itself.
pub proof fn lemma_table_ignores_order_and_duplicates(
    list: Seq<Seq<char>>,
    sorted: Seq<Seq<char>>,
    table_of_list: Seq<Seq<char>>,
    table_of_sorted: Seq<Seq<char>>,
)
    requires
        is_language_table(sorted, list),
        is_language_table(table_of_list, list),
        is_language_table(table_of_sorted, sorted),
    ensures
        table_of_list == table_of_sorted,
        table_of_list == sorted,
{
    lemma_ascending_unique(table_of_list, sorted);
    lemma_ascending_unique(table_of_sorted, sorted);
}

/// Two lists that hold the same names get the same table.
pub proof fn lemma_table_of_same_names(
    first: Seq<Seq<char>>,
    second: Seq<Seq<char>>,
    table_of_first: Seq<Seq<char>>,
    table_of_second: Seq<Seq<char>>,
)
    requires
        same_texts(first, second),
        is_language_table(table_of_first, first),
        is_language_table(table_of_second, second),
    ensures
        table_of_first == table_of_second,
{
    lemma_ascending_unique(table_of_first, table_of_second);
}

/// A store that is well formed stays so when it accepts a message:
/// the languages are the same, and the new message has, for each of
/// them, the template that was given for it.
pub proof fn lemma_accepted_message_keeps_wf(
    store: TranslatorView,
    key: Seq<char>,
    placeholders: Seq<Seq<char>>,
    translations: Seq<(Seq<char>, Seq<char>)>,
)
    requires
        store.wf(),
        store.add_text_error(key, placeholders, translations) is None,
    ensures
        store.with_message(key, placeholders, translations).wf(),
        store.with_message(key, placeholders, translations).languages == store.languages,
        translations.len() == store.languages.len(),
        forall|j: int|
            0 <= j < translations.len() ==> store.with_message(
                key,
                placeholders,
                translations,
            ).template(key, (#[trigger] translations[j]).0) == translations[j].1,
{
    lemma_no_repeat(placeholders, placeholders.len() as int);
    lemma_repeats_iff_duplicates(placeholders);
    let after = store.with_message(key, placeholders, translations);
    let given = firsts(translations);
    lemma_no_fault(store.languages, given, given.len() as int);
    assert forall|at: int| 0 <= at < translations.len() implies after.template(
        key,
        (#[trigger] translations[at]).0,
    ) == translations[at].1 by {
        let l = translations[at].0;
        assert(given[at] == l);
        assert(gives(translations, l, at));
        let j = choose|j: int| gives(translations, l, j);
        assert(given[j] == l);
    }
    lemma_given_once_each(store.languages, given);
}

/// Names that are all among the strictly ascending `known`, none
/// twice, and that leave none of them out, are as many as they.
proof fn lemma_given_once_each(known: Seq<Seq<char>>, given: Seq<Seq<char>>)
    requires
        strictly_ascending(known),
        first_fault(known, given, given.len() as int) is None,
        forall|l: Seq<char>| known.contains(l) ==> given.contains(l),
    ensures
        given.len() == known.len(),
{
    lemma_no_fault(known, given, given.len() as int);
    assert(given.no_duplicates());
    assert(known.no_duplicates()) by {
        assert forall|i: int, j: int| 0 <= i < j < known.len() implies known[i] != known[j] by {
            lemma_text_lt_irreflexive(known[i]);
        }
    }
    given.unique_seq_to_set();
    known.unique_seq_to_set();
    assert(given.to_set() =~= known.to_set()) by {
        assert forall|l: Seq<char>| given.to_set().contains(l) <==> known.to_set().contains(
            l,
        ) by {
        }
    }
}

/// Once a message is stored under a key, whatever is offered under
/// that key again is refused as a duplicate of the key.
pub proof fn lemma_second_add_is_refused(
    store: TranslatorView,
    key: Seq<char>,
    placeholders: Seq<Seq<char>>,
    translations: Seq<(Seq<char>, Seq<char>)>,
    later_placeholders: Seq<Seq<char>>,
    later_translations: Seq<(Seq<char>, Seq<char>)>,
)
    requires
        store.add_text_error(key, placeholders, translations) is None,
    ensures
        store.with_message(key, placeholders, translations).add_text_error(
            key,
            later_placeholders,
            later_translations,
        ) == Some(ErrorView::DuplicatedKey(key)),
{
}

/// The languages given are some of the store's, but not all of them.
pub open spec fn covers_some_but_not_all(languages: Seq<Seq<char>>, given: Seq<Seq<char>>) -> bool {
    &&& forall|l: Seq<char>| given.contains(l) ==> languages.contains(l)
    &&& exists|l: Seq<char>| languages.contains(l) && !given.contains(l)
}

/// A message is refused for a missing language exactly when the
/// languages given are some but not all of the store's. This leaves
/// out the messages that give too few languages and are refused for
/// something that is checked before: a key that is taken, a language
/// given twice.
pub proof fn lemma_missing_language_iff_strict_subset(
    store: TranslatorView,
    key: Seq<char>,
    placeholders: Seq<Seq<char>>,
    translations: Seq<(Seq<char>, Seq<char>)>,
)
    requires
        !(covers_some_but_not_all(store.languages, firsts(translations)) && (
        store.messages.contains_key(key) || !firsts(translations).no_duplicates())),
    ensures
        store.add_text_error(key, placeholders, translations) matches Some(
            ErrorView::MissingLanguage(_),
        ) <==> covers_some_but_not_all(store.languages, firsts(translations)),
{
    let given = firsts(translations);
    lemma_no_fault(store.languages, given, given.len() as int);
    lemma_repeats_iff_duplicates(given);
    if forall|l: Seq<char>| given.contains(l) ==> store.languages.contains(l) {
        assert forall|i: int| 0 <= i < given.len() implies store.languages.contains(
            #[trigger] given[i],
        ) by {
            assert(given.contains(given[i]));
        }
    }
}

/// For a new key, the first pair that names a language which the
/// store does not have decides, if no language is given twice before
/// it: the message is refused for that language, whatever the other
/// pairs and the placeholders are.
pub proof fn lemma_first_unknown_language_is_reported(
    store: TranslatorView,
    key: Seq<char>,
    placeholders: Seq<Seq<char>>,
    translations: Seq<(Seq<char>, Seq<char>)>,
    at: int,
)
    requires
        !store.messages.contains_key(key),
        0 <= at < translations.len(),
        !store.languages.contains(translations[at].0),
        forall|j: int| 0 <= j < at ==> store.languages.contains((#[trigger] translations[j]).0),
        forall|i: int, j: int|
            0 <= i < j < at ==> (#[trigger] translations[i]).0 != (#[trigger] translations[j]).0,
    ensures
        store.add_text_error(key, placeholders, translations) == Some(
            ErrorView::UnknownLanguage(translations[at].0),
        ),
{
    let given = firsts(translations);
    lemma_no_fault(store.languages, given, at);
    assert forall|i: int| 0 <= i < at implies store.languages.contains(#[trigger] given[i])
        && !repeats(given, i) by {
        assert(given[i] == translations[i].0);
        if repeats(given, i) {
            let j = choose|j: int| 0 <= j < i && given[j] == given[i];
            assert(translations[j].0 != translations[i].0);
        }
    }
    assert(given[at] == translations[at].0);
    assert(first_fault(store.languages, given, at + 1) == Some(Fault::Unknown(at)));
    lemma_first_fault_stays(store.languages, given, at + 1, given.len() as int);
}

/// No name is held twice exactly when none repeats an earlier one.
pub proof fn lemma_repeats_iff_duplicates(names: Seq<Seq<char>>)
    ensures
        names.no_duplicates() <==> forall|i: int| 0 <= i < names.len() ==> !repeats(names, i),
{
    if !names.no_duplicates() {
        let (i, j) = choose|i: int, j: int|
            0 <= i < names.len() && 0 <= j < names.len() && i != j && names[i] == names[j];
        if i < j {
            assert(repeats(names, j));
        } else {
            assert(repeats(names, i));
        }
    }
}

/// Without bindings a text comes out as it went in.
pub proof fn lemma_no_bindings_unchanged(text: Seq<char>)
    ensures
        substituted(Seq::empty(), Seq::empty(), text) == text,
    decreases text.len(),
{
    if text.len() > 0 {
        lemma_no_bindings_unchanged(text.skip(1));
    }
}

/// A text in which no bound placeholder occurs comes out as it went
/// in.
pub proof fn lemma_no_occurrence_unchanged(
    patterns: Seq<Seq<char>>,
    values: Seq<Seq<char>>,
    text: Seq<char>,
)
    requires
        forall|at: int| 0 <= at < text.len() ==> first_match(patterns, text.skip(at), 0) is None,
    ensures
        substituted(patterns, values, text) == text,
    decreases text.len(),
{
    if text.len() > 0 {
        assert(text.skip(0) =~= text);
        let rest = text.skip(1);
        assert forall|at: int| 0 <= at < rest.len() implies first_match(
            patterns,
            rest.skip(at),
            0,
        ) is None by {
            assert(rest.skip(at) =~= text.skip(at + 1));
        }
        lemma_no_occurrence_unchanged(patterns, values, rest);
    }
}

/// Each occurrence of a bound placeholder is replaced by exactly its
/// value, and what was put in is not searched again: where no bound
/// placeholder begins within `before`, and `placeholder` is the first
/// bound one with which the rest begins, `before` is kept, the value
/// stands for the placeholder, and the pass goes on with `after`
/// alone.
pub proof fn lemma_occurrence_replaced(
    patterns: Seq<Seq<char>>,
    values: Seq<Seq<char>>,
    before: Seq<char>,
    k: int,
    after: Seq<char>,
)
    requires
        0 <= k < patterns.len(),
        patterns[k].len() > 0,
        forall|at: int|
            0 <= at < before.len() ==> first_match(
                patterns,
                (before + patterns[k] + after).skip(at),
                0,
            ) is None,
        first_match(patterns, patterns[k] + after, 0) == Some(k),
    ensures
        substituted(patterns, values, before + patterns[k] + after) == before + values[k]
            + substituted(patterns, values, after),
    decreases before.len(),
{
    let text = before + patterns[k] + after;
    if before.len() == 0 {
        assert(text.skip(patterns[k].len() as int) =~= after);
        assert(before + values[k] + substituted(patterns, values, after) =~= values[k]
            + substituted(patterns, values, after));
    } else {
        assert(text.skip(0) =~= text);
        let shorter = before.skip(1);
        assert(text.skip(1) =~= shorter + patterns[k] + after);
        assert forall|at: int| 0 <= at < shorter.len() implies first_match(
            patterns,
            (shorter + patterns[k] + after).skip(at),
            0,
        ) is None by {
            assert((shorter + patterns[k] + after).skip(at) =~= text.skip(at + 1));
        }
        lemma_occurrence_replaced(patterns, values, shorter, k, after);
        assert(before + values[k] + substituted(patterns, values, after) =~= seq![text[0]] + (
        shorter + values[k] + substituted(patterns, values, after)));
    }
}

/// No character of a placeholder stands in a value.
pub open spec fn share_no_character(patterns: Seq<Seq<char>>, values: Seq<Seq<char>>) -> bool {
    forall|k: int, p: int, j: int, q: int|
        0 <= k < patterns.len() && 0 <= p < patterns[k].len() && 0 <= j < values.len() && 0 <= q
            < values[j].len() ==> patterns[k][p] != values[j][q]
}

/// What the search for the first match finds is a pattern with which
/// the text begins, and no pattern before it is one; where it finds
/// none, the text begins with no pattern from `from` on.
pub proof fn lemma_first_match(patterns: Seq<Seq<char>>, text: Seq<char>, from: int)
    requires
        0 <= from,
    ensures
        match first_match(patterns, text, from) {
            Some(k) => {
                &&& from <= k < patterns.len()
                &&& patterns[k].is_prefix_of(text)
                &&& forall|j: int| from <= j < k ==> !(#[trigger] patterns[j]).is_prefix_of(text)
            },
            None => forall|j: int|
                from <= j < patterns.len() ==> !(#[trigger] patterns[j]).is_prefix_of(text),
        },
    decreases patterns.len() - from,
{
    if from < patterns.len() && !patterns[from].is_prefix_of(text) {
        lemma_first_match(patterns, text, from + 1);
    }
}

/// A text free of the characters of the values, with which the outcome
/// of a pass begins, is kept text: the text that went in begins with
/// it too.
proof fn lemma_kept_prefix(
    patterns: Seq<Seq<char>>,
    values: Seq<Seq<char>>,
    text: Seq<char>,
    w: Seq<char>,
)
    requires
        patterns.len() == values.len(),
        forall|j: int| 0 <= j < values.len() ==> (#[trigger] values[j]).len() > 0,
        forall|p: int, j: int, q: int|
            0 <= p < w.len() && 0 <= j < values.len() && 0 <= q < values[j].len() ==> w[p]
                != values[j][q],
        w.is_prefix_of(substituted(patterns, values, text)),
    ensures
        w.is_prefix_of(text),
    decreases w.len(),
{
    if w.len() > 0 {
        let out = substituted(patterns, values, text);
        lemma_first_match(patterns, text, 0);
        assert(w[0] == out.subrange(0, w.len() as int)[0]);
        match first_match(patterns, text, 0) {
            Some(k) if 0 < patterns[k].len() <= text.len() => {
                assert(out[0] == values[k][0]);
            },
            _ => {
                let rest = substituted(patterns, values, text.skip(1));
                let shorter = w.skip(1);
                assert(shorter =~= rest.subrange(0, shorter.len() as int));
                lemma_kept_prefix(patterns, values, text.skip(1), shorter);
                assert forall|i: int| 0 < i < w.len() implies w[i] == text[i] by {
                    assert(shorter[i - 1] == text.skip(1).subrange(0, shorter.len() as int)[i
                        - 1]);
                }
                assert(w =~= text.subrange(0, w.len() as int));
            },
        }
    }
}

/// Where no placeholder and no value is empty and no character of a
/// placeholder stands in a value, no bound placeholder is left: the
/// outcome of the pass holds none of them at any place.
pub proof fn lemma_no_bound_placeholder_remains(
    patterns: Seq<Seq<char>>,
    values: Seq<Seq<char>>,
    text: Seq<char>,
    k: int,
    at: int,
)
    requires
        patterns.len() == values.len(),
        forall|j: int| 0 <= j < patterns.len() ==> (#[trigger] patterns[j]).len() > 0,
        forall|j: int| 0 <= j < values.len() ==> (#[trigger] values[j]).len() > 0,
        share_no_character(patterns, values),
        0 <= k < patterns.len(),
        0 <= at <= substituted(patterns, values, text).len(),
    ensures
        !patterns[k].is_prefix_of(substituted(patterns, values, text).skip(at)),
    decreases text.len(),
{
    let out = substituted(patterns, values, text);
    let name = patterns[k];
    if name.is_prefix_of(out.skip(at)) {
        assert(name[0] == out.skip(at).subrange(0, name.len() as int)[0]);
        lemma_first_match(patterns, text, 0);
        match first_match(patterns, text, 0) {
            Some(m) if 0 < patterns[m].len() <= text.len() => {
                let rest = text.skip(patterns[m].len() as int);
                if at < values[m].len() {
                    assert(out[at] == values[m][at]);
                } else {
                    assert(out.skip(at) =~= substituted(patterns, values, rest).skip(
                        at - values[m].len(),
                    ));
                    lemma_no_bound_placeholder_remains(
                        patterns,
                        values,
                        rest,
                        k,
                        at - values[m].len(),
                    );
                }
            },
            _ => {
                let rest = text.skip(1);
                if at == 0 {
                    assert(out.skip(0) =~= out);
                    lemma_kept_prefix(patterns, values, text, name);
                } else {
                    assert(out.skip(at) =~= substituted(patterns, values, rest).skip(at - 1));
                    lemma_no_bound_placeholder_remains(patterns, values, rest, k, at - 1);
                }
            },
        }
    }
}

} // verus!
