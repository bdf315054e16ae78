//! Errors of the block import that checks each block carries exactly one Ethereum block log.
use vstd::prelude::*;

verus! {

/// Why a block was rejected.
#[derive(Clone, Copy, Debug, PartialEq, Eq, Structural)]
pub enum Error {
    /// The block carries more than one Ethereum block log.
    MultipleRuntimeLogs,
    /// The block carries no Ethereum block log.
    NoRuntimeLog,
    /// The runtime could not be reached at genesis.
    RuntimeApiCallFailed,
}

/// Why looking up the Ethereum block log of a block failed.
#[derive(Clone, Copy, Debug, PartialEq, Eq, Structural)]
pub enum FindLogError {
    /// There is no such log.
    NotFound,
    /// There is more than one.
    MultipleLogs,
}

impl Error {
    /// The rejection that a failed log lookup amounts to.
    pub fn from(error: FindLogError) -> (e: Error)
        ensures
            e == (match error {
                FindLogError::NotFound => Error::NoRuntimeLog,
                FindLogError::MultipleLogs => Error::MultipleRuntimeLogs,
            }),
    {
        match error {
            FindLogError::NotFound => Error::NoRuntimeLog,
            FindLogError::MultipleLogs => Error::MultipleRuntimeLogs,
        }
    }

    /// The message that describes the rejection.
    pub fn message(&self) -> (m: String)
        ensures
            m@ == (match self {
                Error::MultipleRuntimeLogs => "Multiple runtime Ethereum blocks, rejecting!"@,
                Error::NoRuntimeLog => "Runtime Ethereum block not found, rejecting!"@,
                Error::RuntimeApiCallFailed => "Cannot access the runtime at genesis, rejecting!"@,
            }),
    {
        match self {
            Error::MultipleRuntimeLogs => "Multiple runtime Ethereum blocks, rejecting!".to_owned(),
            Error::NoRuntimeLog => "Runtime Ethereum block not found, rejecting!".to_owned(),
            Error::RuntimeApiCallFailed => "Cannot access the runtime at genesis, rejecting!".to_owned(),
        }
    }
}

} // verus!
