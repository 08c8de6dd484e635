//! The shared error taxonomy. Builtins and the evaluator report failures
//! through these variants; errors propagate upward unmodified through call
//! frames, and no malformed program ever aborts the host process.

use vstd::prelude::*;

verus! {

/// A structured, recoverable evaluation error, carrying a message for the
/// top-level reporter.
#[derive(Debug)]
pub enum LCoreError {
    /// Catch-all failure, including structural violations in the token
    /// stream and exhaustion of the evaluator's recursion budget.
    LambdaCoreError(String),
    /// An out-of-declared-bounds or non-integer array index.
    IndexError(String),
    /// Wrong arity or argument type handed to a builtin.
    ArgumentError(String),
    /// An identifier absent from every scope.
    NameError(String),
    /// Parameter/argument count mismatch on a user-defined call.
    ArityError(String),
}

impl LCoreError {
    /// The error's message text.
    pub fn message(&self) -> (r: &String)
        ensures
            match *self {
                LCoreError::LambdaCoreError(ref m) => r@ == m@,
                LCoreError::IndexError(ref m) => r@ == m@,
                LCoreError::ArgumentError(ref m) => r@ == m@,
                LCoreError::NameError(ref m) => r@ == m@,
                LCoreError::ArityError(ref m) => r@ == m@,
            },
    {
        match self {
            LCoreError::LambdaCoreError(m) => m,
            LCoreError::IndexError(m) => m,
            LCoreError::ArgumentError(m) => m,
            LCoreError::NameError(m) => m,
            LCoreError::ArityError(m) => m,
        }
    }
}

} // verus!
