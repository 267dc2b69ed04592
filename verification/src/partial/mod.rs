//! Errors of jobs that deliver partial results.

use vstd::prelude::*;

verus! {

/// What can go wrong with the result of a job that may be read before the job
/// is over.
#[derive(Clone, Copy, Debug, PartialEq, Eq, Structural)]
pub enum PartialJobError {
    /// The final value of a partial result was set a second time.
    SetFinalValTwice,
    /// A state that is never reported.
    Unreachable,
}

impl PartialJobError {
    /// The text that describes the error.
    pub fn message(&self) -> (s: String)
        ensures
            s@ == match *self {
                PartialJobError::SetFinalValTwice => "set_final_value called twice on a PartialResult"@,
                PartialJobError::Unreachable => "unreachable"@,
            },
    {
        match self {
            PartialJobError::SetFinalValTwice => {
                "set_final_value called twice on a PartialResult".to_string()
            },
            PartialJobError::Unreachable => "unreachable".to_string(),
        }
    }
}

} // verus!
