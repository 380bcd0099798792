//! Serialization of session state.
//!
//! The session map crosses the storage boundary as text.  The encoding is
//! the outside serializer's affair: its result is named, not restated, and
//! the one fact the store lives on — parsing gives back exactly what
//! serializing wrote — is stated where the parser is declared.

use vstd::prelude::*;

verus! {

/// The views of a sequence of key/value entries.
pub open spec fn pairs_view(entries: Seq<(String, String)>) -> Seq<(Seq<char>, Seq<char>)> {
    entries.map_values(|p: (String, String)| (p.0@, p.1@))
}

/// The text the outside serializer produces for a sequence of key/value
/// pairs.  It depends on the pairs alone.
pub uninterp spec fn json_of(pairs: Seq<(Seq<char>, Seq<char>)>) -> Seq<char>;

/// What the outside parser reads out of a text: the pairs, where the text
/// is a well-formed encoding of some, and nothing otherwise.  It depends on
/// the text alone.
pub uninterp spec fn parsed_pairs(s: Seq<char>) -> Option<Seq<(Seq<char>, Seq<char>)>>;

/// Relies on serde_json::to_string: serializing a vector of string pairs
/// depends on the pairs alone, and cannot fail for this type — its
/// documentation owes failure only to a failing Serialize implementation or
/// a map with non-string keys, and a vector of string pairs has neither.
#[verifier::external_body]
pub(crate) fn encode_pairs(entries: &Vec<(String, String)>) -> (r: Option<String>)
    ensures
        r is Some,
        r matches Some(s) ==> s@ == json_of(pairs_view(entries@)),
{
    serde_json::to_string(entries).ok()
}

/// Relies on serde_json::from_str for a vector of string pairs: the parse
/// depends on the text alone, and a text that serde_json::to_string wrote
/// for pairs parses back to exactly those pairs — serialization of such a
/// self-describing value round-trips.
#[verifier::external_body]
pub(crate) fn decode_pairs(s: &str) -> (r: Option<Vec<(String, String)>>)
    ensures
        r is Some <==> parsed_pairs(s@) is Some,
        r matches Some(v) ==> parsed_pairs(s@) == Some(pairs_view(v@)),
        r matches Some(v) ==> forall|ps: Seq<(Seq<char>, Seq<char>)>|
            s@ == json_of(ps) ==> pairs_view(v@) == ps,
        r is None ==> forall|ps: Seq<(Seq<char>, Seq<char>)>| s@ != json_of(ps),
{
    serde_json::from_str::<Vec<(String, String)>>(s).ok()
}

} // verus!
