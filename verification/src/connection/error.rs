//! Errors of the operations on a stream.

use vstd::prelude::*;

use crate::association::AssociationError;
use crate::error::Error;

verus! {

/// A code that says why a stream was given up.
#[derive(Debug, Clone, Copy, PartialEq, Eq, Structural)]
pub struct ErrorCauseCode(pub u16);

/// Errors that arise from writing to a stream
#[derive(Debug, Clone, Copy, PartialEq, Eq, Structural)]
pub enum WriteError {
    /// The protocol refused
    Error(Error),
    /// The peer is no longer accepting data on this stream
    ///
    /// Carries an application-defined error code.
    Stopped(ErrorCauseCode),
    /// The association was lost
    AssociationLost(AssociationError),
    /// The stream has already been finished or reset
    UnknownStream,
}

/// Errors that arise while monitoring for a send stream stop from the peer
#[derive(Debug, Clone, Copy, PartialEq, Eq, Structural)]
pub enum StoppedError {
    /// The protocol refused
    Error(Error),
    /// The association was lost
    AssociationLost(AssociationError),
    /// The stream has already been finished or reset
    UnknownStream,
}

/// Errors that arise from reading from a stream.
#[derive(Debug, Clone, Copy, PartialEq, Eq, Structural)]
pub enum ReadError {
    /// The protocol refused
    Error(Error),
    /// The peer abandoned transmitting data on this stream
    ///
    /// Carries an application-defined error code.
    Reset(ErrorCauseCode),
    /// The association was lost
    AssociationLost(AssociationError),
    /// The stream has already been stopped, finished, or reset
    UnknownStream,
    /// Attempted an ordered read following an unordered read
    ///
    /// Performing an unordered read allows discontinuities to arise in the receive buffer of a
    /// stream which cannot be recovered, making further ordered reads impossible.
    IllegalOrderedRead,
}

/// Error from reading a stream to its end.
#[derive(Debug, Clone, Copy, PartialEq, Eq, Structural)]
pub enum ReadToEndError {
    /// An error occurred during reading
    Read(ReadError),
    /// The stream is larger than the user-supplied limit
    TooLong,
}

/// Errors that arise from reading an exact number of bytes from a stream.
#[derive(Debug, Clone, Copy, PartialEq, Eq, Structural)]
pub enum ReadExactError {
    /// The stream finished before all bytes were read
    FinishedEarly,
    /// A read error occurred
    ReadError(ReadError),
}

/// Error indicating that a stream has already been finished or reset
#[derive(Debug, Clone, Copy, PartialEq, Eq, Structural)]
pub struct UnknownStream {}

/// What an error means to callers that know only errors of I/O.
#[derive(Debug, Clone, Copy, PartialEq, Eq, Structural)]
pub enum ErrorKind {
    ConnectionReset,
    NotConnected,
    InvalidInput,
}

impl From<Error> for UnknownStream {
    fn from(x: Error) -> (r: Self) {
        UnknownStream {  }
    }
}

impl vstd::std_specs::convert::FromSpecImpl<Error> for UnknownStream {
    open spec fn obeys_from_spec() -> bool {
        true
    }

    open spec fn from_spec(x: Error) -> UnknownStream {
        UnknownStream {  }
    }
}

impl WriteError {
    /// The kind of I/O error that this one is.
    pub fn kind(&self) -> (r: ErrorKind)
        ensures
            r == (if *self is Stopped {
                ErrorKind::ConnectionReset
            } else {
                ErrorKind::NotConnected
            }),
    {
        match self {
            WriteError::Stopped(_) => ErrorKind::ConnectionReset,
            WriteError::Error(_) | WriteError::AssociationLost(_) | WriteError::UnknownStream => {
                ErrorKind::NotConnected
            },
        }
    }
}

impl ReadError {
    /// The kind of I/O error that this one is.
    pub fn kind(&self) -> (r: ErrorKind)
        ensures
            r == (if *self is Reset {
                ErrorKind::ConnectionReset
            } else if *self is IllegalOrderedRead {
                ErrorKind::InvalidInput
            } else {
                ErrorKind::NotConnected
            }),
    {
        match self {
            ReadError::Reset(_) => ErrorKind::ConnectionReset,
            ReadError::Error(_) | ReadError::AssociationLost(_) | ReadError::UnknownStream => {
                ErrorKind::NotConnected
            },
            ReadError::IllegalOrderedRead => ErrorKind::InvalidInput,
        }
    }
}

} // verus!
