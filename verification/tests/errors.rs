//! Tests for the error taxonomy's conversions.

use minimq::errors::{lift_client_error, ClientError, Error, ProtocolError};

#[test]
fn transport_errors_wrap_as_network() {
    let e: Error<i32> = Error::from(7);
    assert_eq!(e, Error::Network(7));
}

#[test]
fn engine_errors_lift_to_client_errors() {
    assert_eq!(lift_client_error::<i32>(ClientError::Invalid), Error::Invalid);
    assert_eq!(lift_client_error::<i32>(ClientError::Failed), Error::Failed);
    assert_eq!(lift_client_error::<i32>(ClientError::Disconnected), Error::Disconnected);
    assert_eq!(
        lift_client_error::<i32>(ClientError::Protocol(ProtocolError::Bounds)),
        Error::Protocol(ProtocolError::Bounds)
    );
}
