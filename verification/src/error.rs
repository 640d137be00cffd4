//! The ways in which an operation of the tokenizer can fail.

use vstd::prelude::*;

verus! {

/// The failure of a tokenizer operation.
#[derive(Clone, Copy, Debug, PartialEq, Eq, Structural)]
pub enum TokenizerError {
    /// A request that no training run can fulfil: a target vocabulary below the
    /// 256 byte tokens, or a text too short for the requested number of merges.
    PreconditionViolation,
    /// A model file with the wrong version marker or with a malformed line.
    InvalidData,
    /// A token id that the vocabulary does not hold.
    UnknownToken,
    /// A file that could not be opened, created, read or written.
    IOFailure,
}

impl TokenizerError {
    /// A short description of the failure, for messages.
    pub fn describe(&self) -> (text: &'static str)
        ensures
            text@ == match *self {
                TokenizerError::PreconditionViolation => "precondition violation"@,
                TokenizerError::InvalidData => "invalid data"@,
                TokenizerError::UnknownToken => "unknown token"@,
                TokenizerError::IOFailure => "I/O failure"@,
            },
    {
        match self {
            TokenizerError::PreconditionViolation => "precondition violation",
            TokenizerError::InvalidData => "invalid data",
            TokenizerError::UnknownToken => "unknown token",
            TokenizerError::IOFailure => "I/O failure",
        }
    }
}

} // verus!
