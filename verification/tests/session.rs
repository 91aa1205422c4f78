//! Tests for the session state record.

use minimq::session::SessionState;

#[test]
fn identifier_advances_and_skips_zero() {
    let mut state = SessionState::new(b"c".to_vec(), 30);
    assert_eq!(state.packet_identifier, 1);
    state.increment_packet_identifier();
    assert_eq!(state.packet_identifier, 2);
    state.packet_identifier = 0xffff;
    state.increment_packet_identifier();
    assert_eq!(state.packet_identifier, 1);
}

#[test]
fn reset_clears_connection_state_but_keeps_identity() {
    let mut state = SessionState::new(b"device".to_vec(), 30);
    state.connected = true;
    state.increment_packet_identifier();
    state.reset();
    assert!(!state.connected);
    assert_eq!(state.packet_identifier, 1);
    assert_eq!(state.client_id, b"device".to_vec());
    assert_eq!(state.keep_alive_interval, 30);
    assert_eq!(state.get_packet_identifier(), 1);
}
