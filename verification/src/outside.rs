//! The calls into other crates. Their contracts are taken from those
//! crates' sources and are believed, not proved.

use crate::text::pairs_of;
use vstd::prelude::*;

verus! {

/// The key-value pairs that `querystring::querify` finds in a query
/// string, in their order.
pub uninterp spec fn query_pairs(query: Seq<char>) -> Seq<(Seq<char>, Seq<char>)>;

/// What `urlencoding::decode` makes of a percent-encoded text: the decoded
/// text, or nothing where the decoded bytes are not UTF-8.
pub uninterp spec fn percent_decoded(text: Seq<char>) -> Option<Seq<char>>;

/// Calls `querystring::querify` and copies the pairs it returns. Nothing
/// is claimed of the pairs but that they depend on the query string alone.
#[verifier::external_body]
pub(crate) fn querify(query: &str) -> (r: Vec<(String, String)>)
    ensures
        pairs_of(r@) == query_pairs(query@),
{
    querystring::querify(query).into_iter().map(|(k, v)| (k.to_owned(), v.to_owned())).collect()
}

/// Calls `urlencoding::decode`. The result depends on the text alone, and
/// a text without a percent sign is returned as it is; an error of the
/// decoder becomes `None`.
#[verifier::external_body]
pub(crate) fn percent_decode(text: &str) -> (r: Option<String>)
    ensures
        match r {
            Some(decoded) => percent_decoded(text@) == Some(decoded@),
            None => percent_decoded(text@) is None,
        },
        !text@.contains('%') ==> match r {
            Some(decoded) => decoded@ == text@,
            None => false,
        },
{
    match urlencoding::decode(text) {
        Ok(decoded) => Some(decoded.into_owned()),
        Err(_) => None,
    }
}

} // verus!
