//! The single error type threaded through the matchers and the parser.
//!
//! There is exactly one kind of failure: a descriptive mismatch carrying a
//! human-readable message naming what was expected.  Callers receive either a
//! fully formed value or one such message; there is no recovery and no
//! partial result.

use vstd::prelude::*;

verus! {

/// A parse failure, carrying a human-readable description of what was
/// expected.  The message is meant for diagnostics, not for branching.
#[derive(Debug)]
pub struct JError(pub String);

impl JError {
    /// Builds a failed result from a message, for any output type.
    pub fn from<O>(msg: &str) -> (r: Result<O, JError>)
        ensures
            r matches Err(e) && e.0@ == msg@,
    {
        Err(JError(msg.to_owned()))
    }
}

} // verus!
