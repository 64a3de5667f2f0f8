//! The errors that the store reports.

use crate::small_str::small_text;
use aho_corasick::MatchError;
use compact_str::CompactString;
use vstd::prelude::*;

verus! {

/// Why a message was not stored or not translated. Each variant but
/// the last two carries the text that was at fault.
#[derive(Debug, PartialEq)]
pub enum Error {
    /// The key is stored already, or one language was given twice for
    /// one message.
    DuplicatedKey(CompactString),
    /// One placeholder was named twice.
    DuplicatedArgument(CompactString),
    /// The language is none of the store's languages.
    UnknownLanguage(CompactString),
    /// The placeholder was not declared for the message.
    UnknownArgument(CompactString),
    /// No message is stored under the key.
    MissingKey(CompactString),
    /// A language of the store was given no template.
    MissingLanguage(CompactString),
    /// The matcher could not run the search.
    AhoCorasickMatch(MatchError),
    /// The matcher could not be built; the text says why.
    AhoCorasickBuild(String),
}

/// An error as contracts see it: the variant, with the text it carries.
pub enum ErrorView {
    DuplicatedKey(Seq<char>),
    DuplicatedArgument(Seq<char>),
    UnknownLanguage(Seq<char>),
    UnknownArgument(Seq<char>),
    MissingKey(Seq<char>),
    MissingLanguage(Seq<char>),
    AhoCorasickMatch(MatchError),
    AhoCorasickBuild(Seq<char>),
}

impl View for Error {
    type V = ErrorView;

    open spec fn view(&self) -> ErrorView {
        match *self {
            Error::DuplicatedKey(s) => ErrorView::DuplicatedKey(small_text(s)),
            Error::DuplicatedArgument(s) => ErrorView::DuplicatedArgument(small_text(s)),
            Error::UnknownLanguage(s) => ErrorView::UnknownLanguage(small_text(s)),
            Error::UnknownArgument(s) => ErrorView::UnknownArgument(small_text(s)),
            Error::MissingKey(s) => ErrorView::MissingKey(small_text(s)),
            Error::MissingLanguage(s) => ErrorView::MissingLanguage(small_text(s)),
            Error::AhoCorasickMatch(e) => ErrorView::AhoCorasickMatch(e),
            Error::AhoCorasickBuild(s) => ErrorView::AhoCorasickBuild(s@),
        }
    }
}

} // verus!
