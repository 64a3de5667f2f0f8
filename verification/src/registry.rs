//! The store of messages and its three operations.

use crate::error::Error;
use crate::error::ErrorView;
use crate::model::first_fault;
use crate::model::first_repeat;
use crate::model::firsts;
use crate::model::gives;
use crate::model::is_language_table;
use crate::model::lemma_first_fault_stays;
use crate::model::lemma_first_repeat_stays;
use crate::model::lemma_ids_below;
use crate::model::lemma_no_fault;
use crate::model::lemma_no_repeat;
use crate::model::missing_language_text;
use crate::model::pair_texts;
use crate::model::seconds;
use crate::model::str_texts;
use crate::model::repeats;
use crate::model::template_of;
use crate::model::Fault;
use crate::model::MessageView;
use crate::model::TranslatorView;
use crate::small_str::small_as_str;
use crate::small_str::small_eq_str;
use crate::small_str::small_from_str;
use crate::small_str::small_lt;
use crate::small_str::small_text;
use crate::small_str::small_texts;
use crate::matcher::matcher_builds;
use crate::substitution::is_substitution;
use crate::substitution::replace_bound;
use crate::text_order::lemma_text_lt_irreflexive;
use crate::text_order::lemma_text_lt_total;
use crate::text_order::lemma_text_lt_transitive;
use crate::text_order::strictly_ascending;
use crate::text_order::text_lt;
use compact_str::CompactString;
use vstd::hash_map::StringHashMap;
use vstd::prelude::*;

verus! {

/// The index of a language among the languages of a store.
pub type LanguageId = usize;

/// The templates and placeholders of one message.
struct Translation {
    arguments: Vec<CompactString>,
    translations: Vec<CompactString>,
}

impl Translation {
    /// The message as the contracts see it.
    spec fn message(self) -> MessageView {
        MessageView {
            placeholders: small_texts(self.arguments@),
            templates: small_texts(self.translations@),
        }
    }

    /// There is one template for each of `n` languages, and no
    /// placeholder is declared twice.
    spec fn complete(self, n: nat) -> bool {
        &&& self.translations@.len() == n
        &&& small_texts(self.arguments@).no_duplicates()
    }
}

/// A store of messages in a fixed set of languages.
pub struct Translator {
    languages: Vec<CompactString>,
    translations: StringHashMap<Translation>,
}

impl View for Translator {
    type V = TranslatorView;

    closed spec fn view(&self) -> TranslatorView {
        TranslatorView {
            languages: small_texts(self.languages@),
            messages: self.translations@.map_values(|t: Translation| t.message()),
        }
    }
}

/// The index of the entry of `table` that holds the text of `name`.
fn position(table: &Vec<CompactString>, name: &str) -> (r: Option<usize>)
    ensures
        match r {
            Some(i) => i < table@.len() && small_texts(table@)[i as int] == name@,
            None => !small_texts(table@).contains(name@),
        },
{
    let mut i: usize = 0;
    while i < table.len()
        invariant
            i <= table@.len(),
            forall|j: int| 0 <= j < i ==> small_texts(table@)[j] != name@,
        decreases table@.len() - i,
    {
        if small_eq_str(&table[i], name) {
            return Some(i);
        }
        i += 1;
    }
    None
}

/// Puts `name` in its place in an ascending table, unless it is there.
fn insert_language(table: &mut Vec<CompactString>, name: &str)
    requires
        strictly_ascending(small_texts(old(table)@)),
    ensures
        strictly_ascending(small_texts(final(table)@)),
        forall|x: Seq<char>|
            small_texts(final(table)@).contains(x) <==> small_texts(old(table)@).contains(x) || x
                == name@,
{
    let entry = small_from_str(name);
    let ghost before = small_texts(table@);
    let mut at: usize = 0;
    while at < table.len() && small_lt(&table[at], &entry)
        invariant
            at <= table@.len(),
            small_texts(table@) == before,
            small_text(entry) == name@,
            forall|j: int| 0 <= j < at ==> text_lt(before[j], name@),
        decreases table@.len() - at,
    {
        at += 1;
    }
    if at < table.len() && small_eq_str(&table[at], name) {
        assert(before.contains(before[at as int]));
        return;
    }
    proof {
        assert forall|j: int| at <= j < before.len() implies text_lt(
            name@,
            before[j],
        ) by {
            lemma_text_lt_total(name@, before[at as int]);
            if j > at {
                lemma_text_lt_transitive(name@, before[at as int], before[j]);
            }
        }
    }
    table.insert(at, entry);
    proof {
        let after = small_texts(table@);
        assert(after =~= before.insert(at as int, name@));
        assert(strictly_ascending(after));
        assert forall|x: Seq<char>| after.contains(x) <==> before.contains(x) || x == name@ by {
            if before.contains(x) {
                let i = choose|i: int| 0 <= i < before.len() && before[i] == x;
                if i < at {
                    assert(after[i] == x);
                } else {
                    assert(after[i + 1] == x);
                }
            }
            assert(after[at as int] == name@);
        }
    }
}

/// The placeholders of a message as the store keeps them, unless one
/// is declared twice.
fn declare_placeholders(arguments: &[&str]) -> (r: Result<Vec<CompactString>, Error>)
    ensures
        match r {
            Ok(v) => first_repeat(str_texts(arguments@), arguments@.len() as int) is None
                && small_texts(v@) == str_texts(arguments@),
            Err(e) => first_repeat(str_texts(arguments@), arguments@.len() as int) matches Some(i)
                && e@ == ErrorView::DuplicatedArgument(str_texts(arguments@)[i]),
        },
{
    let ghost names = str_texts(arguments@);
    let mut declared: Vec<CompactString> = Vec::new();
    let mut i: usize = 0;
    while i < arguments.len()
        invariant
            i <= arguments@.len(),
            names == str_texts(arguments@),
            first_repeat(names, i as int) is None,
            small_texts(declared@) == names.take(i as int),
        decreases arguments@.len() - i,
    {
        let name = arguments[i];
        let found = position(&declared, name);
        proof {
            lemma_no_repeat(names, i as int);
            lemma_no_repeat(names, i + 1);
            if found is Some {
                assert(small_texts(declared@).len() == i);
                lemma_first_repeat_stays(names, i + 1, names.len() as int);
            } else if repeats(names, i as int) {
                let j = choose|j: int| 0 <= j < i && names[j] == names[i as int];
                assert(names.take(i as int)[j] == name@);
            }
        }
        if found.is_some() {
            return Err(Error::DuplicatedArgument(small_from_str(name)));
        }
        let ghost before = small_texts(declared@);
        declared.push(small_from_str(name));
        i += 1;
        assert(small_texts(declared@) =~= before.push(name@));
    }
    Ok(declared)
}

/// The templates of a message by language id, unless a pair names a
/// language that the table does not hold or that an earlier pair
/// named, or a language of the table is left without template.
fn collect_templates(languages: &Vec<CompactString>, translations: &[(&str, &str)]) -> (r: Result<
    Vec<CompactString>,
    Error,
>)
    requires
        strictly_ascending(small_texts(languages@)),
    ensures
        match r {
            Ok(templates) => {
                &&& first_fault(
                    small_texts(languages@),
                    firsts(pair_texts(translations@)),
                    translations@.len() as int,
                ) is None
                &&& forall|l: Seq<char>|
                    small_texts(languages@).contains(l) ==> firsts(
                        pair_texts(translations@),
                    ).contains(l)
                &&& templates@.len() == languages@.len()
                &&& forall|id: int|
                    0 <= id < languages@.len() ==> small_texts(templates@)[id] == template_of(
                        pair_texts(translations@),
                        small_texts(languages@)[id],
                    )
            },
            Err(e) => match first_fault(
                small_texts(languages@),
                firsts(pair_texts(translations@)),
                translations@.len() as int,
            ) {
                Some(Fault::Unknown(i)) => e@ == ErrorView::UnknownLanguage(
                    firsts(pair_texts(translations@))[i],
                ),
                Some(Fault::Repeated(i)) => e@ == ErrorView::DuplicatedKey(
                    firsts(pair_texts(translations@))[i],
                ),
                None => e@ == ErrorView::MissingLanguage(missing_language_text()) && exists|
                    l: Seq<char>,
                |
                    small_texts(languages@).contains(l) && !firsts(
                        pair_texts(translations@),
                    ).contains(l),
            },
        },
{
    let ghost known = small_texts(languages@);
    let ghost pairs = pair_texts(translations@);
    let ghost given = firsts(pairs);
    let mut templates: Vec<CompactString> = Vec::new();
    let mut seen: Vec<bool> = Vec::new();
    let mut k: usize = 0;
    while k < languages.len()
        invariant
            k <= languages@.len(),
            templates@.len() == k,
            seen@.len() == k,
            forall|id: int| 0 <= id < k ==> !seen@[id],
        decreases languages@.len() - k,
    {
        templates.push(small_from_str(""));
        seen.push(false);
        k += 1;
    }
    let mut covered: usize = 0;
    let ghost mut ids: Set<usize> = Set::empty();
    let mut i: usize = 0;
    while i < translations.len()
        invariant
            i <= translations@.len(),
            known == small_texts(languages@),
            pairs == pair_texts(translations@),
            given == firsts(pairs),
            strictly_ascending(known),
            templates@.len() == known.len(),
            seen@.len() == known.len(),
            first_fault(known, given, i as int) is None,
            ids.finite(),
            ids.len() == covered,
            forall|id: usize| ids.contains(id) <==> id < known.len() && seen@[id as int],
            forall|id: int|
                0 <= id < known.len() ==> (seen@[id] <==> exists|j: int|
                    0 <= j < i && given[j] == known[id]),
            forall|id: int, j: int|
                0 <= id < known.len() && 0 <= j < i && pairs[j].0 == known[id] ==> small_text(
                    templates@[id],
                ) == pairs[j].1,
        decreases translations@.len() - i,
    {
        let language = translations[i].0;
        let message = translations[i].1;
        proof {
            lemma_no_fault(known, given, i as int);
            lemma_no_fault(known, given, i + 1);
            lemma_ids_below(ids, languages.len());
        }
        match position(languages, language) {
            None => {
                proof {
                    lemma_first_fault_stays(known, given, i + 1, given.len() as int);
                }
                return Err(Error::UnknownLanguage(small_from_str(language)));
            },
            Some(id) => {
                if seen[id] {
                    proof {
                        lemma_first_fault_stays(known, given, i + 1, given.len() as int);
                    }
                    return Err(Error::DuplicatedKey(small_from_str(language)));
                }
                seen.set(id, true);
                templates.set(id, small_from_str(message));
                proof {
                    assert(!ids.contains(id));
                    ids = ids.insert(id);
                    assert forall|other: int| 0 <= other < known.len() implies (seen@[other]
                        <==> exists|j: int| 0 <= j < i + 1 && given[j] == known[other]) by {
                        if other != id && known[other] == known[id as int] {
                            lemma_text_lt_irreflexive(known[other]);
                        }
                    }
                    assert forall|other: int, j: int|
                        0 <= other < known.len() && 0 <= j < i + 1 && pairs[j].0
                            == known[other] implies small_text(templates@[other])
                        == pairs[j].1 by {
                        assert(given[j] == pairs[j].0);
                        if other != id && j == i {
                            lemma_text_lt_irreflexive(known[other]);
                        }
                    }
                }
                covered += 1;
            },
        }
        i += 1;
    }
    proof {
        lemma_no_fault(known, given, given.len() as int);
        lemma_ids_below(ids, languages.len());
    }
    if covered < languages.len() {
        proof {
            let id = choose|id: usize| id < known.len() && !ids.contains(id);
            assert(known.contains(known[id as int]));
        }
        return Err(Error::MissingLanguage(small_from_str("Not all languages have translations")));
    }
    proof {
        assert forall|l: Seq<char>| known.contains(l) implies given.contains(l) by {
            let id = choose|id: int| 0 <= id < known.len() && known[id] == l;
            assert(ids.contains(id as usize));
        }
        assert forall|id: int| 0 <= id < known.len() implies small_texts(templates@)[id]
            == template_of(pairs, known[id]) by {
            assert(ids.contains(id as usize));
            let j = choose|j: int| 0 <= j < i && given[j] == known[id];
            assert(gives(pairs, known[id], j));
        }
    }
    Ok(templates)
}

/// The placeholders and the values of the bindings, in their order,
/// unless a binding names a placeholder that was not declared or that
/// an earlier binding named.
fn check_bindings(declared: &Vec<CompactString>, bindings: &[(&str, &str)]) -> (r: Result<
    (Vec<CompactString>, Vec<CompactString>),
    Error,
>)
    ensures
        match first_fault(
            small_texts(declared@),
            firsts(pair_texts(bindings@)),
            bindings@.len() as int,
        ) {
            Some(Fault::Unknown(i)) => r matches Err(e) && e@ == ErrorView::UnknownArgument(
                firsts(pair_texts(bindings@))[i],
            ),
            Some(Fault::Repeated(i)) => r matches Err(e) && e@ == ErrorView::DuplicatedArgument(
                firsts(pair_texts(bindings@))[i],
            ),
            None => r matches Ok(bound) && small_texts(bound.0@) == firsts(pair_texts(bindings@))
                && small_texts(bound.1@) == seconds(pair_texts(bindings@)),
        },
{
    let ghost known = small_texts(declared@);
    let ghost names = firsts(pair_texts(bindings@));
    let ghost given = seconds(pair_texts(bindings@));
    let mut arguments: Vec<CompactString> = Vec::new();
    let mut values: Vec<CompactString> = Vec::new();
    let mut i: usize = 0;
    while i < bindings.len()
        invariant
            i <= bindings@.len(),
            known == small_texts(declared@),
            names == firsts(pair_texts(bindings@)),
            given == seconds(pair_texts(bindings@)),
            first_fault(known, names, i as int) is None,
            small_texts(arguments@) == names.take(i as int),
            small_texts(values@) == given.take(i as int),
        decreases bindings@.len() - i,
    {
        let name = bindings[i].0;
        proof {
            lemma_no_fault(known, names, i as int);
            lemma_no_fault(known, names, i + 1);
        }
        if position(declared, name).is_none() {
            proof {
                lemma_first_fault_stays(known, names, i + 1, names.len() as int);
            }
            return Err(Error::UnknownArgument(small_from_str(name)));
        }
        let found = position(&arguments, name);
        proof {
            if found is Some {
                assert(small_texts(arguments@).len() == i);
                lemma_first_fault_stays(known, names, i + 1, names.len() as int);
            } else if repeats(names, i as int) {
                let j = choose|j: int| 0 <= j < i && names[j] == names[i as int];
                assert(names.take(i as int)[j] == name@);
            }
        }
        if found.is_some() {
            return Err(Error::DuplicatedArgument(small_from_str(name)));
        }
        let ghost names_before = small_texts(arguments@);
        let ghost values_before = small_texts(values@);
        arguments.push(small_from_str(name));
        values.push(small_from_str(bindings[i].1));
        i += 1;
        proof {
            assert(small_texts(arguments@) =~= names_before.push(name@));
            assert(small_texts(values@) =~= values_before.push(bindings@[i - 1].1@));
            assert(names.take(i as int) =~= names.take(i - 1).push(name@));
            assert(given.take(i as int) =~= given.take(i - 1).push(bindings@[i - 1].1@));
        }
    }
    proof {
        assert(names.take(i as int) =~= names);
        assert(given.take(i as int) =~= given);
    }
    Ok((arguments, values))
}

impl Translator {
    #[verifier::type_invariant]
    spec fn inv(&self) -> bool {
        &&& strictly_ascending(small_texts(self.languages@))
        &&& forall|k: Seq<char>| #[trigger]
            self.translations@.contains_key(k) ==> self.translations@[k].complete(
                self.languages@.len(),
            )
    }

    /// A store for the given languages, with no message in it. The
    /// languages are kept in ascending order, each once, whatever the
    /// order and number in which they were given; the index of a
    /// language in that order is its id.
    pub fn new(languages: &[&str]) -> (r: Translator)
        ensures
            is_language_table(r@.languages, str_texts(languages@)),
            r@.messages == Map::<Seq<char>, MessageView>::empty(),
            r@.wf(),
    {
        let mut table: Vec<CompactString> = Vec::new();
        let mut i: usize = 0;
        while i < languages.len()
            invariant
                i <= languages@.len(),
                strictly_ascending(small_texts(table@)),
                forall|x: Seq<char>|
                    small_texts(table@).contains(x) <==> str_texts(languages@).take(
                        i as int,
                    ).contains(x),
            decreases languages@.len() - i,
        {
            let ghost seen = str_texts(languages@).take(i as int);
            insert_language(&mut table, languages[i]);
            i += 1;
            proof {
                let now = str_texts(languages@).take(i as int);
                assert(now =~= seen.push(languages@[i - 1]@));
                assert forall|x: Seq<char>| now.contains(x) <==> seen.contains(x) || x
                    == languages@[i - 1]@ by {
                    if seen.contains(x) {
                        let j = choose|j: int| 0 <= j < seen.len() && seen[j] == x;
                        assert(now[j] == x);
                    }
                    assert(now[i - 1] == languages@[i - 1]@);
                }
            }
        }
        assert(str_texts(languages@).take(i as int) =~= str_texts(languages@));
        let r = Translator { languages: table, translations: StringHashMap::new() };
        r
    }

    /// The id of a language: its index among the languages of the
    /// store in ascending order. `None` for a language that the store
    /// does not have.
    pub fn language_id(&self, language: &str) -> (r: Option<LanguageId>)
        ensures
            match r {
                Some(id) => self@.languages.contains(language@) && id == self@.language_id(
                    language@,
                ) && id < self@.languages.len(),
                None => !self@.languages.contains(language@),
            },
    {
        proof {
            use_type_invariant(self);
        }
        let found = position(&self.languages, language);
        proof {
            if found is Some && small_texts(self.languages@).index_of(language@) != found->0 {
                lemma_text_lt_irreflexive(language@);
            }
        }
        found
    }

    /// Stores a message under a new key: the placeholders that its
    /// templates may hold, and one template for each language of the
    /// store, as pairs of language and template in any order.
    ///
    /// A message is refused, and the store left as it was, for the
    /// first of these that holds: the key is stored already
    /// (`DuplicatedKey` with the key); going through the pairs in
    /// order, one names a language that the store does not have
    /// (`UnknownLanguage` with the language) or that an earlier pair
    /// named (`DuplicatedKey` with the language); a language of the
    /// store is given no template (`MissingLanguage`); a placeholder is
    /// declared twice (`DuplicatedArgument` with the placeholder).
    ///
    /// A placeholder may be the beginning of another one, as `NAME` is
    /// of `NAME2`; `translate` says which of the two is then replaced.
    pub fn add_text(&mut self, key: &str, arguments: &[&str], translations: &[(&str, &str)]) -> (r:
        Result<(), Error>)
        ensures
            match r {
                Ok(_) => old(self)@.add_text_error(
                    key@,
                    str_texts(arguments@),
                    pair_texts(translations@),
                ) is None && final(self)@ == old(self)@.with_message(
                    key@,
                    str_texts(arguments@),
                    pair_texts(translations@),
                ),
                Err(e) => old(self)@.add_text_error(
                    key@,
                    str_texts(arguments@),
                    pair_texts(translations@),
                ) == Some(e@) && final(self)@ == old(self)@,
            },
            final(self)@.wf(),
    {
        proof {
            use_type_invariant(&*self);
            self.lemma_view_wf();
        }
        if self.translations.contains_key(key) {
            return Err(Error::DuplicatedKey(small_from_str(key)));
        }
        let templates = match collect_templates(&self.languages, translations) {
            Ok(templates) => templates,
            Err(e) => {
                return Err(e);
            },
        };
        let declared = match declare_placeholders(arguments) {
            Ok(declared) => declared,
            Err(e) => {
                return Err(e);
            },
        };
        let ghost before = self.translations@;
        let translation = Translation { arguments: declared, translations: templates };
        proof {
            let names = str_texts(arguments@);
            lemma_no_repeat(names, names.len() as int);
            assert forall|i: int, j: int| 0 <= i < j < names.len() implies names[i]
                != names[j] by {
                assert(!repeats(names, j));
            }
            assert(translation.message().templates =~= Seq::new(
                self.languages@.len(),
                |i: int|
                    template_of(pair_texts(translations@), small_texts(self.languages@)[i]),
            ));
        }
        let mut messages: StringHashMap<Translation> = StringHashMap::new();
        std::mem::swap(&mut self.translations, &mut messages);
        messages.insert(key.to_owned(), translation);
        self.translations = messages;
        proof {
            assert(self.translations@.map_values(|t: Translation| t.message()) =~= before.map_values(
                |t: Translation| t.message(),
            ).insert(key@, translation.message()));
            self.lemma_view_wf();
        }
        Ok(())
    }

    /// The template stored under `key` for `language`, with each
    /// bound placeholder replaced by its value in one pass from left to
    /// right. The bindings are pairs of placeholder and value; a
    /// placeholder that is declared but not bound stays as it stands.
    ///
    /// The request is refused for the first of these that holds: no
    /// message is stored under the key (`MissingKey`); the store does
    /// not have the language (`UnknownLanguage`); going through the
    /// bindings in order, one names a placeholder that the message
    /// does not declare (`UnknownArgument`) or that an earlier binding
    /// named (`DuplicatedArgument`). Past these checks the translation
    /// fails only where no matcher can be built from the placeholders
    /// that are bound (`AhoCorasickBuild`); without bindings it never
    /// does.
    ///
    /// Of the placeholders that begin at one place of the template the
    /// one bound first is replaced: bound in the order `NAME`, `NAME2`,
    /// the text `NAME2` becomes the value of `NAME` with `2` behind it;
    /// bound in the order `NAME2`, `NAME`, it becomes the value of
    /// `NAME2`. A match that begins further left comes before one that
    /// begins further right, and no two matches overlap.
    pub fn translate(&self, key: &str, language: &str, args: &[(&str, &str)]) -> (r: Result<
        String,
        Error,
    >)
        ensures
            match r {
                Ok(s) => {
                    &&& self@.translate_error(key@, language@, pair_texts(args@)) is None
                    &&& is_substitution(
                        s@,
                        self@.template(key@, language@),
                        pair_texts(args@),
                    )
                },
                Err(e) => match self@.translate_error(key@, language@, pair_texts(args@)) {
                    Some(v) => e@ == v,
                    None => e@ is AhoCorasickBuild,
                },
            },
            self@.translate_error(key@, language@, pair_texts(args@)) is None ==> (r is Ok
                <==> matcher_builds(firsts(pair_texts(args@)))),
            self@.translate_error(key@, language@, pair_texts(args@)) is None && args@.len() == 0
                ==> r is Ok,
    {
        proof {
            use_type_invariant(self);
        }
        let translation = match self.translations.get(key) {
            Some(translation) => translation,
            None => {
                return Err(Error::MissingKey(small_from_str(key)));
            },
        };
        let language_id = match self.language_id(language) {
            Some(id) => id,
            None => {
                return Err(Error::UnknownLanguage(small_from_str(language)));
            },
        };
        let message = small_as_str(&translation.translations[language_id]);
        match check_bindings(&translation.arguments, args) {
            Ok((arguments, values)) => {
                assert(small_texts(arguments@).len() == small_texts(values@).len());
                replace_bound(message, &arguments, &values)
            },
            Err(e) => Err(e),
        }
    }

    /// The store as contracts see it is well formed.
    proof fn lemma_view_wf(&self)
        requires
            self.inv(),
        ensures
            self@.wf(),
    {
    }
}

} // verus!
