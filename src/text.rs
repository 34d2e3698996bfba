use vstd::prelude::*;

verus! {

/// Lower-case form of a string, as `str::to_lowercase` computes it.
pub uninterp spec fn lower_of(s: Seq<char>) -> Seq<char>;

/// `needle` occurs in `hay` at some position.
pub open spec fn seq_contains(hay: Seq<char>, needle: Seq<char>) -> bool {
    exists|i: int| 0 <= i && i + needle.len() <= hay.len() && #[trigger] hay.subrange(i, i + needle.len()) == needle
}

/// Relies on `str::to_lowercase`: the result depends on the characters alone.
#[verifier::external_body]
pub(crate) fn lowercase(s: &str) -> (r: String)
    ensures
        r@ == lower_of(s@),
{
    s.to_lowercase()
}

/// Relies on `str::contains` with a string pattern: true exactly where `needle` occurs in `hay`.
#[verifier::external_body]
pub(crate) fn contains_str(hay: &str, needle: &str) -> (r: bool)
    ensures
        r == seq_contains(hay@, needle@),
{
    hay.contains(needle)
}

/// A name filter accepts a name when the filter is empty or its lower-case form occurs in the
/// lower-case form of the name.
pub open spec fn name_accepted(name: Seq<char>, filter: Seq<char>) -> bool {
    filter.len() == 0 || seq_contains(lower_of(name), lower_of(filter))
}

/// The name filter decision, given the lower-case forms of the name and the filter.
pub fn name_matches_folded(filter: &str, name_folded: &str, filter_folded: &str) -> (r: bool)
    ensures
        r == (filter@.len() == 0 || seq_contains(name_folded@, filter_folded@)),
{
    filter.is_empty() || contains_str(name_folded, filter_folded)
}

/// Case-insensitive, unanchored name filter; an empty filter accepts every name.
pub fn name_matches(name: &str, filter: &str) -> (r: bool)
    ensures
        r == name_accepted(name@, filter@),
{
    if filter.is_empty() {
        return true;
    }
    let name_folded = lowercase(name);
    let filter_folded = lowercase(filter);
    name_matches_folded(filter, name_folded.as_str(), filter_folded.as_str())
}

} // verus!
