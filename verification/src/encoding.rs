//! Conversion between a parameter list and the
//! `application/x-www-form-urlencoded` syntax, done by the `url` crate's
//! `form_urlencoded` module.
use vstd::prelude::*;
use crate::model::{Entry, entries_view};

verus! {

/// The pairs that `url::form_urlencoded::parse` yields for the UTF-8 bytes of
/// `query`, as characters.
pub uninterp spec fn form_urlencoded_parse(query: Seq<char>) -> Seq<Entry>;

/// The string that `url::form_urlencoded::Serializer` builds, starting from an
/// empty string, for `pairs` in order.
pub uninterp spec fn form_urlencoded_serialize(pairs: Seq<Entry>) -> Seq<char>;

/// Parses `query` with `url::form_urlencoded::parse` and collects the decoded
/// pairs. Trusted: the result is the named parse of the query's characters,
/// and an empty query yields no pair (the parser's `next` returns `None` at
/// once on empty input).
#[verifier::external_body]
pub(crate) fn parse_query(query: &str) -> (pairs: Vec<(String, String)>)
    ensures
        entries_view(pairs@) == form_urlencoded_parse(query@),
        query@.len() == 0 ==> pairs@.len() == 0,
{
    url::form_urlencoded::parse(query.as_bytes()).into_owned().collect()
}

/// Serializes `pairs` with `url::form_urlencoded::Serializer::new(String::new())`,
/// `extend_pairs` and `finish`. Trusted:
/// - the result is the named serialization of the pairs;
/// - it is empty exactly when there is no pair (each `append_pair` writes at
///   least the `=` between name and value);
/// - it holds no `?`: `byte_serialize` writes only the bytes `*-._`, ASCII
///   letters and digits, `+` for a space, and `%XX` for any other byte, and
///   `append_pair` adds only `=` and `&`;
/// - `url::form_urlencoded::parse` gives the pairs back: every `&` and `=`
///   inside a name or value is written as `%26`/`%3D`, so the split on `&` and
///   `=` finds each pair; no pair is written empty (each has its `=`); `+`
///   stands only for a space (a literal `+` is `%2B`); and percent-decoding
///   restores the UTF-8 bytes of the names and values, which the lossy UTF-8
///   decoding then leaves unchanged.
#[verifier::external_body]
pub(crate) fn serialize_pairs(pairs: &Vec<(String, String)>) -> (query: String)
    ensures
        query@ == form_urlencoded_serialize(entries_view(pairs@)),
        query@.len() == 0 <==> pairs@.len() == 0,
        !query@.contains('?'),
        form_urlencoded_parse(query@) == entries_view(pairs@),
{
    url::form_urlencoded::Serializer::new(String::new()).extend_pairs(pairs.iter()).finish()
}

} // verus!
