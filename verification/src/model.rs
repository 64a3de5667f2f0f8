//! The store as contracts see it, and what its operations answer.

use crate::error::ErrorView;
use crate::text_order::same_texts;
use crate::text_order::strictly_ascending;
use vstd::prelude::*;

verus! {

/// One message: the placeholders declared for it and its templates,
/// the template of language `i` at index `i`.
pub struct MessageView {
    pub placeholders: Seq<Seq<char>>,
    pub templates: Seq<Seq<char>>,
}

/// The store: its languages, each at the index that is its id, and its
/// messages by key.
pub struct TranslatorView {
    pub languages: Seq<Seq<char>>,
    pub messages: Map<Seq<char>, MessageView>,
}

/// `table` holds the given names, each once, in ascending order.
pub open spec fn is_language_table(table: Seq<Seq<char>>, names: Seq<Seq<char>>) -> bool {
    strictly_ascending(table) && same_texts(table, names)
}

/// What is wrong with one of a list of names.
pub enum Fault {
    /// The name at this index is not among the known ones.
    Unknown(int),
    /// The name at this index stands at an earlier index too.
    Repeated(int),
}

/// The texts of a sequence of string slices, one for one.
pub open spec fn str_texts(s: Seq<&str>) -> Seq<Seq<char>> {
    s.map_values(|t: &str| t@)
}

/// The texts of a sequence of pairs of string slices, one for one.
pub open spec fn pair_texts(s: Seq<(&str, &str)>) -> Seq<(Seq<char>, Seq<char>)> {
    s.map_values(|p: (&str, &str)| (p.0@, p.1@))
}

/// The first parts of the pairs, in their order.
pub open spec fn firsts(pairs: Seq<(Seq<char>, Seq<char>)>) -> Seq<Seq<char>> {
    pairs.map_values(|p: (Seq<char>, Seq<char>)| p.0)
}

/// The second parts of the pairs, in their order.
pub open spec fn seconds(pairs: Seq<(Seq<char>, Seq<char>)>) -> Seq<Seq<char>> {
    pairs.map_values(|p: (Seq<char>, Seq<char>)| p.1)
}

/// The name at index `i` stands at an earlier index too.
pub open spec fn repeats(names: Seq<Seq<char>>, i: int) -> bool {
    exists|j: int| 0 <= j < i && names[j] == names[i]
}

/// The least index below `n` whose name repeats an earlier one.
pub open spec fn first_repeat(names: Seq<Seq<char>>, n: int) -> Option<int>
    decreases n,
{
    if n <= 0 {
        None
    } else {
        match first_repeat(names, n - 1) {
            Some(i) => Some(i),
            None => if repeats(names, n - 1) {
                Some(n - 1)
            } else {
                None
            },
        }
    }
}

/// The fault at the least index below `n` that has one: a name that is
/// not among `known`, or else one that repeats an earlier name.
pub open spec fn first_fault(known: Seq<Seq<char>>, names: Seq<Seq<char>>, n: int) -> Option<Fault>
    decreases n,
{
    if n <= 0 {
        None
    } else {
        match first_fault(known, names, n - 1) {
            Some(f) => Some(f),
            None => if !known.contains(names[n - 1]) {
                Some(Fault::Unknown(n - 1))
            } else if repeats(names, n - 1) {
                Some(Fault::Repeated(n - 1))
            } else {
                None
            },
        }
    }
}

/// The text that `MissingLanguage` carries when a message is refused.
pub open spec fn missing_language_text() -> Seq<char> {
    "Not all languages have translations"@
}

/// The pair at index `j` is the one given for `language`.
pub open spec fn gives(translations: Seq<(Seq<char>, Seq<char>)>, language: Seq<char>, j: int) -> bool {
    0 <= j < translations.len() && translations[j].0 == language
}

/// The template given for `language`: the second part of a pair whose
/// first part is that language.
pub open spec fn template_of(translations: Seq<(Seq<char>, Seq<char>)>, language: Seq<char>) -> Seq<
    char,
> {
    translations[choose|j: int| gives(translations, language, j)].1
}

/// Once a name repeats an earlier one, the first that does stays the
/// first however many more names are looked at.
pub proof fn lemma_first_repeat_stays(names: Seq<Seq<char>>, n: int, m: int)
    requires
        n <= m,
        first_repeat(names, n) is Some,
    ensures
        first_repeat(names, m) == first_repeat(names, n),
    decreases m - n,
{
    if n < m {
        lemma_first_repeat_stays(names, n, m - 1);
    }
}

/// No name below `n` repeats an earlier one exactly when the search
/// for the first that does finds none.
pub proof fn lemma_no_repeat(names: Seq<Seq<char>>, n: int)
    ensures
        first_repeat(names, n) is None <==> forall|i: int| 0 <= i < n ==> !repeats(names, i),
        first_repeat(names, n) matches Some(i) ==> 0 <= i < n && repeats(names, i),
    decreases n,
{
    if n > 0 {
        lemma_no_repeat(names, n - 1);
    }
}

/// Once a name is at fault, the first fault stays the first however
/// many more names are looked at.
pub proof fn lemma_first_fault_stays(known: Seq<Seq<char>>, names: Seq<Seq<char>>, n: int, m: int)
    requires
        n <= m,
        first_fault(known, names, n) is Some,
    ensures
        first_fault(known, names, m) == first_fault(known, names, n),
    decreases m - n,
{
    if n < m {
        lemma_first_fault_stays(known, names, n, m - 1);
    }
}

/// The names below `n` are free of fault exactly when each is known
/// and none repeats an earlier one; a fault that is found lies below
/// `n` and is of the kind it says.
pub proof fn lemma_no_fault(known: Seq<Seq<char>>, names: Seq<Seq<char>>, n: int)
    ensures
        first_fault(known, names, n) is None <==> forall|i: int|
            0 <= i < n ==> known.contains(#[trigger] names[i]) && !repeats(names, i),
        first_fault(known, names, n) matches Some(Fault::Unknown(i)) ==> 0 <= i < n
            && !known.contains(names[i]),
        first_fault(known, names, n) matches Some(Fault::Repeated(i)) ==> 0 <= i < n
            && known.contains(names[i]) && repeats(names, i),
    decreases n,
{
    if n > 0 {
        lemma_no_fault(known, names, n - 1);
    }
}

/// A finite set of ids below `n` has at most `n` members, and has `n`
/// only if it holds every id below `n`.
pub proof fn lemma_ids_below(s: Set<usize>, n: usize)
    requires
        s.finite(),
        forall|id: usize| s.contains(id) ==> id < n,
    ensures
        s.len() <= n,
        s.len() == n <==> forall|id: usize| id < n ==> s.contains(id),
    decreases n,
{
    if n == 0 {
        assert(s =~= Set::<usize>::empty());
    } else {
        let top = (n - 1) as usize;
        let rest = s.remove(top);
        lemma_ids_below(rest, top);
        if s.len() == n {
            assert forall|id: usize| id < n implies s.contains(id) by {
                assert(id != top ==> rest.contains(id));
            }
        }
    }
}

impl TranslatorView {
    /// The languages ascend strictly, and every message has one
    /// template for each language and no placeholder twice.
    pub open spec fn wf(self) -> bool {
        &&& strictly_ascending(self.languages)
        &&& forall|k: Seq<char>| #[trigger]
            self.messages.contains_key(k) ==> {
                &&& self.messages[k].templates.len() == self.languages.len()
                &&& self.messages[k].placeholders.no_duplicates()
            }
    }

    /// The id of a language: its index among the languages.
    pub open spec fn language_id(self, language: Seq<char>) -> int {
        self.languages.index_of(language)
    }

    /// Why a message is refused, the checks made in this order: the
    /// key is taken; a pair names a language that is unknown or that
    /// an earlier pair named; a language is left without template; a
    /// placeholder is declared twice. `None` where it is accepted.
    pub open spec fn add_text_error(
        self,
        key: Seq<char>,
        placeholders: Seq<Seq<char>>,
        translations: Seq<(Seq<char>, Seq<char>)>,
    ) -> Option<ErrorView> {
        let given = firsts(translations);
        if self.messages.contains_key(key) {
            Some(ErrorView::DuplicatedKey(key))
        } else {
            match first_fault(self.languages, given, given.len() as int) {
                Some(Fault::Unknown(i)) => Some(ErrorView::UnknownLanguage(given[i])),
                Some(Fault::Repeated(i)) => Some(ErrorView::DuplicatedKey(given[i])),
                None => if exists|l: Seq<char>|
                    self.languages.contains(l) && !given.contains(l) {
                    Some(ErrorView::MissingLanguage(missing_language_text()))
                } else {
                    match first_repeat(placeholders, placeholders.len() as int) {
                        Some(i) => Some(ErrorView::DuplicatedArgument(placeholders[i])),
                        None => None,
                    }
                },
            }
        }
    }

    /// The store with one message more.
    pub open spec fn with_message(
        self,
        key: Seq<char>,
        placeholders: Seq<Seq<char>>,
        translations: Seq<(Seq<char>, Seq<char>)>,
    ) -> TranslatorView {
        TranslatorView {
            languages: self.languages,
            messages: self.messages.insert(
                key,
                MessageView {
                    placeholders,
                    templates: Seq::new(
                        self.languages.len(),
                        |i: int| template_of(translations, self.languages[i]),
                    ),
                },
            ),
        }
    }

    /// Why a translation is refused before any text is touched, the
    /// checks made in this order: the key is not stored; the language
    /// is unknown; a binding names a placeholder that the message does
    /// not declare or that an earlier binding named. `None` where the
    /// request is in order.
    pub open spec fn translate_error(
        self,
        key: Seq<char>,
        language: Seq<char>,
        bindings: Seq<(Seq<char>, Seq<char>)>,
    ) -> Option<ErrorView> {
        let names = firsts(bindings);
        if !self.messages.contains_key(key) {
            Some(ErrorView::MissingKey(key))
        } else if !self.languages.contains(language) {
            Some(ErrorView::UnknownLanguage(language))
        } else {
            match first_fault(self.messages[key].placeholders, names, names.len() as int) {
                Some(Fault::Unknown(i)) => Some(ErrorView::UnknownArgument(names[i])),
                Some(Fault::Repeated(i)) => Some(ErrorView::DuplicatedArgument(names[i])),
                None => None,
            }
        }
    }

    /// The template stored for a key in a language.
    pub open spec fn template(self, key: Seq<char>, language: Seq<char>) -> Seq<char> {
        self.messages[key].templates[self.language_id(language)]
    }
}

} // verus!
