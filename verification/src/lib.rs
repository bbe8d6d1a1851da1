//! A read-only index between fuzz inputs and the groups that an inference
//! pass assigned them to.
//!
//! An [`InferenceMap`] is built once, from group data or from the JSON text
//! of a results file, and then answers three questions: which groups a set
//! of inputs touches, which inputs a group holds, and which groups exist.

mod construct;
pub mod error;
pub mod inference;
pub mod input;
pub mod json;
pub mod laws;
pub mod model;

pub use crate::error::InferenceError;
pub use crate::inference::{sentinel, InferenceMap};
pub use crate::input::{InputID, InputIDVal};
pub use crate::model::{GroupID, Outcome};
