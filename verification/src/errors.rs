use vstd::prelude::*;

verus! {

/// The failure taxonomy of the engine.  Every fallible operation of the
/// library reports one of these; none is silently swallowed.
#[derive(Clone, Copy, Debug, PartialEq, Eq, Structural)]
pub enum AtmError {
    /// User-supplied parameters are self-contradictory or out of domain:
    /// a target length shorter than the required minimum, a zero count,
    /// a zero batch size, or a hash shorter than the partition geometry
    /// requires.  Detected before any output is produced.
    InvalidConfiguration,
    /// The external encoder rejected a sequence; fatal for the run.
    EncodingFailure,
    /// Directory creation or container flush failed; fatal for the run.
    IOFailure,
    /// `push` or `finish` was called on a writer that is already closed;
    /// a programming error, never expected in correct orchestration.
    InvalidState,
}

impl AtmError {
    /// A short description of the failure, for display by callers.
    pub fn description(&self) -> (s: &'static str)
        ensures
            *self == AtmError::InvalidConfiguration ==> s@ == "invalid configuration"@,
            *self == AtmError::EncodingFailure ==> s@ == "encoding failure"@,
            *self == AtmError::IOFailure ==> s@ == "i/o failure"@,
            *self == AtmError::InvalidState ==> s@ == "archive is already closed"@,
    {
        match self {
            AtmError::InvalidConfiguration => "invalid configuration",
            AtmError::EncodingFailure => "encoding failure",
            AtmError::IOFailure => "i/o failure",
            AtmError::InvalidState => "archive is already closed",
        }
    }
}

} // verus!
