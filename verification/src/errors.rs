use vstd::prelude::*;

verus! {

/// Protocol-level failure conditions: malformed inbound data and
/// fixed-buffer resource bounds.
#[derive(Debug, Copy, Clone, PartialEq, Eq, Structural)]
pub enum ProtocolError {
    Bounds,
    DataSize,
    Invalid,
    PacketSize,
    EmptyPacket,
    Failed,
    PartialPacket,
    InvalidState,
    MalformedPacket,
    MalformedInteger,
    UnknownProperty,
    UnsupportedPacket,
}

/// Client-level errors. `Network` wraps an error value of the
/// caller-supplied transport; every other variant originates in the engine.
#[derive(Debug, Copy, Clone, PartialEq)]
pub enum Error<E> {
    Network(E),
    WriteFail,
    Disconnected,
    Invalid,
    Failed,
    Protocol(ProtocolError),
}

/// Errors produced by the verified engine itself. The engine never touches
/// the transport, so it cannot produce a `Network` error; callers that need
/// the transport-generic `Error` lift through [`lift_client_error`].
#[derive(Debug, Copy, Clone, PartialEq, Eq, Structural)]
pub enum ClientError {
    Invalid,
    Failed,
    Disconnected,
    Protocol(ProtocolError),
}

impl<E> From<E> for Error<E> {
    fn from(e: E) -> (r: Error<E>) {
        Error::Network(e)
    }
}

impl<E> vstd::std_specs::convert::FromSpecImpl<E> for Error<E> {
    open spec fn obeys_from_spec() -> bool {
        true
    }

    open spec fn from_spec(e: E) -> Self {
        Error::Network(e)
    }
}

/// What an engine error means as a transport-generic client error.
pub open spec fn spec_lift_client_error<E>(e: ClientError) -> Error<E> {
    match e {
        ClientError::Invalid => Error::Invalid,
        ClientError::Failed => Error::Failed,
        ClientError::Disconnected => Error::Disconnected,
        ClientError::Protocol(p) => Error::Protocol(p),
    }
}

/// Turns an engine error into the transport-generic client error.
pub fn lift_client_error<E>(e: ClientError) -> (r: Error<E>)
    ensures
        r == spec_lift_client_error::<E>(e),
{
    match e {
        ClientError::Invalid => Error::Invalid,
        ClientError::Failed => Error::Failed,
        ClientError::Disconnected => Error::Disconnected,
        ClientError::Protocol(p) => Error::Protocol(p),
    }
}

} // verus!
