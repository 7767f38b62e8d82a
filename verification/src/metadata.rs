//! Decoding the metadata stored with a document: a JSON object of string
//! keys and values. Stored text that is not such an object reads as no
//! metadata.
use std::collections::HashMap;
use vstd::prelude::*;
use vstd::std_specs::hash::lemma_hashmap_deepview_dom;

verus! {

/// The map that the JSON text `text` denotes when it is an object whose
/// values are all strings (as `serde_json` reads it into a
/// `HashMap<String, String>`), or `None` when it is not such a text.
pub uninterp spec fn json_string_map(text: Seq<char>) -> Option<Map<Seq<char>, Seq<char>>>;

/// `serde_json::from_str` into a `HashMap<String, String>`: the map when
/// `text` is a JSON object of string values, else nothing. The result is
/// named `json_string_map`; the JSON grammar is not spelled out.
#[verifier::external_body]
fn parse_string_map(text: &str) -> (r: Option<HashMap<String, String>>)
    ensures
        (r is Some) == (json_string_map(text@) is Some),
        r matches Some(m) ==> m.deep_view() == json_string_map(text@)->Some_0,
{
    serde_json::from_str(text).ok()
}

/// The metadata a document's stored metadata text denotes: the decoded
/// map, or an empty map when the text does not decode.
pub open spec fn metadata_of(text: Seq<char>) -> Map<Seq<char>, Seq<char>> {
    match json_string_map(text) {
        Some(m) => m,
        None => Map::empty(),
    }
}

/// Decode stored metadata text; text that is not a JSON object of string
/// values gives an empty map.
pub fn decode_metadata(text: &str) -> (m: HashMap<String, String>)
    ensures
        m.deep_view() == metadata_of(text@),
{
    match parse_string_map(text) {
        Some(m) => m,
        None => {
            let m: HashMap<String, String> = HashMap::new();
            proof {
                lemma_hashmap_deepview_dom(m);
                assert(m.deep_view().dom() =~= Set::<Seq<char>>::empty());
                assert(m.deep_view() =~= Map::<Seq<char>, Seq<char>>::empty());
            }
            m
        },
    }
}

} // verus!
