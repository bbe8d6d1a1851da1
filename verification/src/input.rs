//! Identity of a corpus element.

use vstd::prelude::*;

verus! {

/// Raw value behind an input identifier.
pub type InputIDVal = u64;

/// Identifier of one fuzz input. Two identifiers are equal exactly when
/// their raw values are.
#[derive(Clone, Copy, Debug, PartialEq, Eq, Hash, Structural)]
pub struct InputID {
    pub value: InputIDVal,
}

impl InputID {
    /// Wraps a raw value.
    pub fn new(value: InputIDVal) -> (id: Self)
        ensures
            id.value == value,
    {
        InputID { value }
    }

    /// The raw value.
    pub fn value(&self) -> (v: InputIDVal)
        ensures
            v == self.value,
    {
        self.value
    }
}

} // verus!
