//! The three-valued outcome of a parsing step.

use vstd::prelude::*;

verus! {

/// What a parsing step yields: a value, a value together with the failure that a
/// sub-step absorbed on the way, or a failure alone.
pub enum Fallible<T, E> {
    /// Full success: nothing failed on the way.
    Success(T),
    /// A value was produced, and at least one attempt below it failed.
    Recovered(T, E),
    /// No value could be produced.
    Failure(E),
}

impl<T, E> Fallible<T, E> {
    /// The two-valued reading of an outcome: a value counts as success whether or
    /// not a failure was absorbed, and the absorbed failure is dropped.
    pub open spec fn as_result(self) -> Result<T, E> {
        match self {
            Fallible::Success(t) => Ok(t),
            Fallible::Recovered(t, _) => Ok(t),
            Fallible::Failure(e) => Err(e),
        }
    }

    /// Collapses the outcome to a `Result`, dropping an absorbed failure.
    pub fn into_result(self) -> (r: Result<T, E>)
        ensures
            r == self.as_result(),
    {
        match self {
            Fallible::Success(t) => Ok(t),
            Fallible::Recovered(t, _) => Ok(t),
            Fallible::Failure(e) => Err(e),
        }
    }
}

} // verus!
