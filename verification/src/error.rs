use vstd::prelude::*;

verus! {

/// `std::io::Error`, carried through by the I/O variant of [`WebSocketError`].
#[verifier::external_type_specification]
#[verifier::external_body]
pub struct ExIoError(std::io::Error);

/// `hyper::Error`, carried through by the HTTP variant of [`WebSocketError`].
#[verifier::external_type_specification]
#[verifier::external_body]
pub struct ExHyperError(hyper::Error);

/// Everything that can go wrong while speaking the WebSocket protocol.
#[derive(Debug)]
pub enum WebSocketError {
    InvalidFragment,
    InvalidUTF8,
    InvalidContinuationFrame,
    InvalidStatusCode,
    InvalidUpgradeHeader,
    InvalidConnectionHeader,
    ConnectionClosed,
    InvalidCloseFrame,
    InvalidCloseCode,
    UnexpectedEOF,
    ReservedBitsNotZero,
    ControlFrameFragmented,
    PingFrameTooLarge,
    FrameTooLarge,
    InvalidSecWebsocketVersion,
    InvalidValue,
    MissingSecWebSocketKey,
    IoError(std::io::Error),
    HTTPError(hyper::Error),
}

} // verus!
