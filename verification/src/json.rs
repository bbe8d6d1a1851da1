//! Reading group data out of JSON text.

use vstd::prelude::*;
use std::collections::HashMap;
use crate::input::InputIDVal;
use crate::model::{GroupID, GroupLists};

verus! {

/// The error type of `serde_json`. Nothing is known of a value of it.
#[verifier::external_type_specification]
#[verifier::external_body]
pub struct ExJsonError(serde_json::Error);

/// The member lists of a group map, as sequences.
pub open spec fn group_lists(groups: Map<GroupID, Vec<InputIDVal>>) -> GroupLists {
    groups.map_values(|members: Vec<InputIDVal>| members@)
}

/// The group data that `serde_json` reads out of `bytes`: `None` where it
/// rejects them.
pub uninterp spec fn json_groups(bytes: Seq<u8>) -> Option<Map<u64, Seq<u64>>>;

/// Parses `bytes` with `serde_json::from_reader` into a `serde_json::Value`
/// and turns that value into a group map with `serde_json::from_value`.
///
/// The contract is taken on trust. It says no more than that what the two
/// calls give depends on `bytes` alone, by giving it the name `json_groups`:
/// equal bytes hold equal group data, or are rejected alike.
#[verifier::external_body]
pub(crate) fn decode_groups(bytes: &[u8]) -> (decoded: Result<
    HashMap<GroupID, Vec<InputIDVal>>,
    serde_json::Error,
>)
    ensures
        match decoded {
            Ok(groups) => json_groups(bytes@) == Some(group_lists(groups@)),
            Err(_) => json_groups(bytes@) is None,
        },
{
    let document: serde_json::Value = serde_json::from_reader(bytes)?;
    serde_json::from_value(document)
}

} // verus!
