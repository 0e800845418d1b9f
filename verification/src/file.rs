//! A specification file: where it is, and what it says.
use vstd::prelude::*;

verus! {

/// Note: To create a "virtual file", just construct a `File {}` instance and
/// specify both the file path and its content.
#[derive(Clone, Debug)]
pub struct File {
    pub path: String,
    pub content: String,
}

} // verus!
