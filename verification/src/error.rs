use vstd::prelude::*;

verus! {

/// Errors returned by the `hsmc` runtime.
#[derive(Debug, Clone, Copy, PartialEq, Eq, Structural)]
pub enum HsmcError {
    /// The event queue is full. The event was not enqueued.
    QueueFull,
    /// The machine has already terminated. No further operations are valid.
    AlreadyTerminated,
}

/// The human-readable text of each error.
pub open spec fn spec_error_message(e: HsmcError) -> Seq<char> {
    match e {
        HsmcError::QueueFull => "event queue is full"@,
        HsmcError::AlreadyTerminated => "machine has already terminated"@,
    }
}

impl HsmcError {
    /// The message that describes this error, one fixed sentence per variant.
    pub fn message(&self) -> (s: &'static str)
        ensures
            s@ == spec_error_message(*self),
    {
        match self {
            HsmcError::QueueFull => "event queue is full",
            HsmcError::AlreadyTerminated => "machine has already terminated",
        }
    }
}

} // verus!
