//! The single error value of the crate.

use vstd::prelude::*;

verus! {

/// Error produced when an indexing operation is out of bounds or otherwise
/// inapplicable.
///
/// Carries no context information (to be as light as possible).
#[derive(Clone, Copy, Debug, PartialEq, Eq, Structural)]
pub struct IndexingError;

/// Produce the (unique) indexing error value.
pub fn index_error() -> (e: IndexingError)
    ensures
        e == IndexingError,
{
    IndexingError
}

impl IndexingError {
    /// A short, fixed description of the error.
    pub fn description(&self) -> (r: &'static str)
        ensures
            r@ == "index error"@,
    {
        "index error"
    }
}

} // verus!
