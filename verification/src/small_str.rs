//! The compact string type in which the store keeps its texts.

use crate::text_order::text_lt;
use compact_str::CompactString;
use vstd::prelude::*;

verus! {

/// The compact string, of which the contracts know only the
/// characters it holds.
#[verifier::external_type_specification]
#[verifier::external_body]
pub struct ExCompactString(CompactString);

/// The characters that a compact string holds.
pub uninterp spec fn small_text(s: CompactString) -> Seq<char>;

/// The texts of a sequence of compact strings, one for one.
pub open spec fn small_texts(s: Seq<CompactString>) -> Seq<Seq<char>> {
    s.map_values(|t: CompactString| small_text(t))
}

/// `CompactString::new` on a string slice: the new value holds the
/// characters of the slice.
#[verifier::external_body]
pub(crate) fn small_from_str(s: &str) -> (r: CompactString)
    ensures
        small_text(r) == s@,
{
    CompactString::new(s)
}

/// `CompactString::as_str`: the slice shows the characters that the
/// value holds.
#[verifier::external_body]
pub(crate) fn small_as_str(s: &CompactString) -> (r: &str)
    ensures
        r@ == small_text(*s),
{
    s.as_str()
}

/// `CompactString`'s `==` with a string slice, which compares the
/// characters of the two.
#[verifier::external_body]
pub(crate) fn small_eq_str(a: &CompactString, b: &str) -> (r: bool)
    ensures
        r == (small_text(*a) == b@),
{
    a == b
}

/// `CompactString`'s `<`, which ranks two compact strings as `str`
/// ranks its values: lexicographically by their bytes, and so by the
/// code points of their characters.
#[verifier::external_body]
pub(crate) fn small_lt(a: &CompactString, b: &CompactString) -> (r: bool)
    ensures
        r == text_lt(small_text(*a), small_text(*b)),
{
    a < b
}

} // verus!
