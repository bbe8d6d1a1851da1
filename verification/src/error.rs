//! Failures of building or querying an index.

use vstd::prelude::*;
use crate::model::GroupID;

verus! {

/// What can go wrong with an inference index.
#[derive(Clone, Copy, Debug, PartialEq, Eq, Structural)]
pub enum InferenceError {
    /// The results file could not be opened or read. The library itself
    /// never reads files; whoever does reports the failure with this value.
    Io,
    /// The bytes are not JSON, or not a JSON object that maps group ids to
    /// arrays of input ids.
    Format,
    /// A query named a group that the index does not hold.
    InvalidGroup(GroupID),
}

} // verus!
