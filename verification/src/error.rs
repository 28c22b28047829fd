//! Errors that can occur around a STEP file reduction. The reduction itself
//! is a total transformation; failures arise only at the file boundary, which
//! callers report through the input/output variant.

use vstd::prelude::*;

verus! {

/// Errors that can occur during STEP file reduction.
#[derive(Debug)]
pub enum ReduceError {
    /// An input/output failure at the file boundary, described in text.
    Io(String),
    /// A structural fault in the STEP file content.
    Parse(String),
}

impl ReduceError {
    /// The human-readable description carried by the error.
    pub fn into_message(self) -> (r: String)
        ensures
            self matches ReduceError::Io(m) ==> r == m,
            self matches ReduceError::Parse(m) ==> r == m,
    {
        match self {
            ReduceError::Io(m) => m,
            ReduceError::Parse(m) => m,
        }
    }
}

} // verus!
