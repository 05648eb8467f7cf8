//! How parameters travel: as a query string in
//! `application/x-www-form-urlencoded` syntax, written by the `url` crate, or
//! as a JSON object, written by `serde_json`.

use crate::params::{pairs_view, strictly_sorted, Pair};
use std::collections::BTreeMap;
use vstd::prelude::*;

verus! {

/// The `application/x-www-form-urlencoded` serialisation of the pairs, in
/// their order.
pub uninterp spec fn form_urlencoded(pairs: Seq<Pair>) -> Seq<char>;

/// The compact JSON object whose members are the pairs, in their order, each
/// value a JSON string.
pub uninterp spec fn json_object(pairs: Seq<Pair>) -> Seq<char>;

#[verifier::external_type_specification]
#[verifier::external_body]
pub struct ExJsonError(serde_json::Error);

/// Runs `url::form_urlencoded::Serializer` over the pairs: `new` on an empty
/// string, `extend_pairs`, `finish`.
///
/// The contract names the text that comes back; it depends on the pairs
/// alone.
#[verifier::external_body]
pub(crate) fn form_urlencode(entries: &Vec<(String, String)>) -> (r: String)
    ensures
        r@ == form_urlencoded(pairs_view(entries@)),
{
    url::form_urlencoded::Serializer::new(String::new()).extend_pairs(entries.iter()).finish()
}

/// Calls `serde_json::to_string` on the pairs as a map from string to string.
///
/// The contract claims that the call succeeds and names the text that comes
/// back. `serde_json` documents two causes of failure, a `Serialize` impl
/// that fails and a map whose keys are not strings; a map from `&str` to
/// `&str` has neither, and the text is written into a `Vec<u8>`, which takes
/// every write. The pairs are to ascend by key, which is the order in which
/// the map is written.
#[verifier::external_body]
pub(crate) fn json_encode(entries: &Vec<(String, String)>) -> (r: Result<
    String,
    serde_json::Error,
>)
    requires
        strictly_sorted(pairs_view(entries@)),
    ensures
        r is Ok,
        r->Ok_0@ == json_object(pairs_view(entries@)),
{
    let object: BTreeMap<&str, &str> =
        entries.iter().map(|e| (e.0.as_str(), e.1.as_str())).collect();
    serde_json::to_string(&object)
}

} // verus!
