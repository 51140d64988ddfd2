//! The JSON parser, behind functions from plain values to plain values.

use crate::types;
use vstd::prelude::*;

verus! {

/// What `serde_json::from_str` answers for a text: nothing, or the message of
/// its error.
pub uninterp spec fn json_check(s: Seq<char>) -> Result<(), Seq<char>>;

/// The members of the object that a JSON document holds under a top-level key,
/// in document order: each name with its value, if the value is a string.
/// Nothing where the text is not JSON, or holds no object there.
pub uninterp spec fn json_members(
    s: Seq<char>,
    key: Seq<char>,
) -> Option<Seq<(Seq<char>, Option<Seq<char>>)>>;

/// Views of a list of members.
pub open spec fn member_views(v: Seq<(String, Option<String>)>) -> Seq<
    (Seq<char>, Option<Seq<char>>),
> {
    v.map_values(|m: (String, Option<String>)| (m.0@, types::opt_view(m.1)))
}

/// `serde_json::from_str`: whether the text is JSON, and why not; the answer
/// depends on the text alone.
#[verifier::external_body]
pub(crate) fn check_json(s: &str) -> (r: Result<(), String>)
    ensures
        match r {
            Ok(()) => json_check(s@) is Ok,
            Err(e) => json_check(s@) == Err::<(), Seq<char>>(e@),
        },
{
    serde_json::from_str::<serde_json::Value>(s).map(|_v| ()).map_err(|e| e.to_string())
}

/// `serde_json::from_str`, then `Value::get` and `Value::as_object`: the
/// members of one top-level object; the answer depends on the text and the key
/// alone.
#[verifier::external_body]
pub(crate) fn object_members(s: &str, key: &str) -> (r: Option<Vec<(String, Option<String>)>>)
    ensures
        match r {
            Some(members) => json_members(s@, key@) == Some(member_views(members@)),
            None => json_members(s@, key@) is None,
        },
        json_check(s@) is Err ==> r is None,
{
    let root = serde_json::from_str::<serde_json::Value>(s).ok()?;
    let members = root.get(key)?.as_object()?;
    Some(members.iter().map(|(k, v)| (k.clone(), v.as_str().map(str::to_owned))).collect())
}

} // verus!
