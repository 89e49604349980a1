//! Flattening typed store errors into the strings that cross the external
//! boundary.

use vstd::prelude::*;

use crate::database::StoreError;

verus! {

/// Renders the error side of a `Result` as a human-readable string.
pub trait ErrMapString {
    /// The same result with its error flattened to a `String`.
    type Out;

    /// Maps the error to its string rendering; the success value is kept.
    fn err_to_str(self) -> Self::Out;
}

impl<T> ErrMapString for Result<T, StoreError> {
    type Out = Result<T, String>;

    /// A success value passes through unchanged; an error is flattened to
    /// its human-readable rendering.
    fn err_to_str(self) -> (r: Self::Out)
        ensures
            self matches Ok(v) ==> r == Ok::<T, String>(v),
            self matches Err(e) ==> (r matches Err(s) && (e is NotFound ==> s@ == "not found"@) && (
            e is DuplicateName ==> s@ == "duplicate name"@)),
    {
        match self {
            Ok(v) => Ok(v),
            Err(e) => Err(e.message().to_owned()),
        }
    }
}

} // verus!
