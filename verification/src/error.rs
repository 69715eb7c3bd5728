//! The engine's error taxonomy: what aborts the current batch.

use vstd::prelude::*;

verus! {

/// Why processing a batch, or the stream feeding it, stopped.
#[derive(Debug)]
pub enum Error {
    /// A decoded event did not carry what it must.
    InvalidMessage(String),
    /// The feed closed from the far side.
    StreamClosed(String),
    /// The feed failed in transport.
    StreamError(String),
    /// The store's state and the incoming data cannot both be right.
    InconsistDataError(String),
}

impl Error {
    /// The error's description.
    pub fn message(self) -> (r: String)
        ensures
            r == (match self {
                Error::InvalidMessage(s) => s,
                Error::StreamClosed(s) => s,
                Error::StreamError(s) => s,
                Error::InconsistDataError(s) => s,
            }),
    {
        match self {
            Error::InvalidMessage(s) => s,
            Error::StreamClosed(s) => s,
            Error::StreamError(s) => s,
            Error::InconsistDataError(s) => s,
        }
    }
}

} // verus!
