//! The headers of a response: `http_req`'s table, which does not tell the case of names apart.
use crate::text::{lower_char, number_in};
use http_req::response::Headers;
use vstd::prelude::*;
use vstd::utf8::encode_utf8;

verus! {

#[verifier::external_type_specification]
#[verifier::external_body]
pub struct ExHeaders(Headers);

/// A header as the table keeps it: the name as it was spelled first, and the value.
pub struct HeaderEntry {
    pub name: Seq<char>,
    pub value: Seq<char>,
}

/// The entries of a table, each under its name in lower case.
pub type HeaderMap = Map<Seq<char>, HeaderEntry>;

/// What the table holds.
pub uninterp spec fn headers_map(headers: Headers) -> Map<Seq<char>, HeaderEntry>;

/// A name in lower case.
pub open spec fn lower(name: Seq<char>) -> Seq<char> {
    name.map_values(|c: char| lower_char(c))
}

/// A table with a value put under a name. A name that is there already keeps its spelling.
pub open spec fn with_header(map: HeaderMap, name: Seq<char>, value: Seq<char>) -> HeaderMap {
    let spelled = if map.contains_key(lower(name)) {
        map[lower(name)].name
    } else {
        name
    };
    map.insert(lower(name), HeaderEntry { name: spelled, value })
}

/// The value under a name.
pub open spec fn header_value(map: HeaderMap, name: Seq<char>) -> Option<Seq<char>> {
    if map.contains_key(lower(name)) {
        Some(map[lower(name)].value)
    } else {
        None
    }
}

/// Whether `list` has each entry of the table once, and nothing else.
pub open spec fn lists(map: HeaderMap, list: Seq<HeaderEntry>) -> bool {
    &&& forall|i: int|
        0 <= i < list.len() ==> map.contains_pair(lower((#[trigger] list[i]).name), list[i])
    &&& forall|i: int, j: int|
        0 <= i < j < list.len() ==> lower((#[trigger] list[i]).name) != lower(
            (#[trigger] list[j]).name,
        )
    &&& forall|key: Seq<char>|
        map.contains_key(key) ==> exists|i: int|
            0 <= i < list.len() && lower((#[trigger] list[i]).name) == key
}

/// The length that a table gives for the body.
pub open spec fn header_length(map: HeaderMap) -> Option<nat> {
    match header_value(map, "Content-Length"@) {
        Some(value) => number_in(encode_utf8(value)),
        None => None,
    }
}

/// `Headers::new`: a table without entries.
#[verifier::external_body]
pub(crate) fn headers_new() -> (r: Headers)
    ensures
        headers_map(r) == HeaderMap::empty(),
{
    Headers::new()
}

/// `Headers::insert`: puts a value under a name, in place of the one that was there.
#[verifier::external_body]
pub(crate) fn headers_insert(headers: &mut Headers, name: &str, value: &str)
    ensures
        headers_map(*final(headers)) == with_header(headers_map(*old(headers)), name@, value@),
{
    headers.insert(name, value);
}

/// A name and a value, as an entry.
pub open spec fn entry(pair: (String, String)) -> HeaderEntry {
    HeaderEntry { name: pair.0@, value: pair.1@ }
}

/// Names and values, as entries.
pub open spec fn entries(pairs: Seq<(String, String)>) -> Seq<HeaderEntry> {
    pairs.map_values(|p: (String, String)| entry(p))
}

/// `Headers::iter`: the entries, each once, in an order that is not told.
#[verifier::external_body]
pub(crate) fn headers_list(headers: &Headers) -> (r: Vec<(String, String)>)
    ensures
        lists(headers_map(*headers), entries(r@)),
{
    headers.iter().map(|(name, value)| (name.to_string(), value.clone())).collect()
}

} // verus!
