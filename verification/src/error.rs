//! Errors of the protocol layer.

use vstd::prelude::*;

verus! {

/// What can go wrong in the protocol layer.
#[derive(Debug, Clone, Copy, PartialEq, Eq, Structural)]
pub enum Error {
    /// A parameter is shorter than its header.
    ErrParamHeaderTooShort,
    /// A parameter announces a length that does not even cover its header.
    ErrParamHeaderSelfReportedLengthShorter,
    /// A parameter announces more bytes than there are.
    ErrParamHeaderSelfReportedLengthLonger,
    /// The stream is closed, or was never open.
    ErrStreamClosed,
    /// There is no stream with that identifier.
    ErrStreamNotExisted,
    /// There is a stream with that identifier already.
    ErrStreamAlreadyExist,
    /// The stream could not be set up.
    ErrStreamCreateFailed,
    /// A message is longer than the association allows.
    ErrOutboundPacketTooLarge,
    /// No INIT chunk is stored that could be sent.
    ErrInitNotStoredToSend,
    /// No COOKIE-ECHO chunk is stored that could be sent.
    ErrCookieEchoNotStoredToSend,
    /// The peer never answered the INIT chunk.
    ErrHandshakeInitAck,
    /// The peer never answered the COOKIE-ECHO chunk.
    ErrHandshakeCookieEcho,
    /// Payload data cannot be sent in the present state.
    ErrPayloadDataStateNotExist,
    /// A stream cannot be reset in the present state.
    ErrResetPacketInStateNotExist,
}

} // verus!
