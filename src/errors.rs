//! Errors of the limiter that runs asynchronous tasks.
use vstd::prelude::*;

verus! {

/// Why a task could not be run.
#[derive(Debug, Clone, Copy, PartialEq, Eq, Structural)]
pub enum ErrorKind {
    RuntimeShuttingDown,
}

impl ErrorKind {
    /// The text that describes the error.
    pub fn message(&self) -> (r: &'static str)
        ensures
            r@ == "Runtime is shutting down"@,
    {
        match self {
            ErrorKind::RuntimeShuttingDown => "Runtime is shutting down",
        }
    }
}

} // verus!
