//! Tests for the connection state machine and the polling engine.

use minimq::codec::ReceivedPacket;
use minimq::engine::{handle_packet, ClientCore};
use minimq::errors::{ClientError, ProtocolError};
use minimq::session::SessionState;

const CONNACK_OK: [u8; 5] = [0x20, 0x03, 0x00, 0x00, 0x00];
const CONNACK_SESSION_PRESENT: [u8; 5] = [0x20, 0x03, 0x01, 0x00, 0x00];
const CONNACK_REFUSED: [u8; 5] = [0x20, 0x03, 0x00, 0x87, 0x00];
const SUBACK_ID1: [u8; 5] = [0x90, 0x03, 0x00, 0x01, 0x00];
const SUBACK_ID5: [u8; 5] = [0x90, 0x03, 0x00, 0x05, 0x00];
const SUBACK_ID1_FAILED: [u8; 5] = [0x90, 0x03, 0x00, 0x01, 0x80];
const PUBLISH_ABC: [u8; 10] = [0x30, 0x08, 0x00, 0x03, b'a', b'b', b'c', 0x00, 0x01, 0x02];

fn fresh_core() -> ClientCore {
    ClientCore::new(b"client".to_vec(), 10, 64)
}

fn connected_core() -> ClientCore {
    let mut core = fresh_core();
    let pubs = core.process_data(&CONNACK_OK).unwrap();
    assert!(pubs.is_empty());
    assert!(core.state.connected);
    core
}

#[test]
fn session_present_fails_regardless_of_reason_code() {
    for reason_code in [0u8, 1, 0x87] {
        let mut state = SessionState::new(b"c".to_vec(), 10);
        let packet = ReceivedPacket::ConnAck { session_present: true, reason_code };
        assert_eq!(handle_packet(&mut state, &packet), Err(ClientError::Failed));
        assert!(!state.connected);
    }
}

#[test]
fn session_present_fails_through_the_engine() {
    let mut core = fresh_core();
    assert_eq!(
        core.process_data(&CONNACK_SESSION_PRESENT),
        Err(ClientError::Failed)
    );
    assert!(!core.state.connected);
}

#[test]
fn refused_acknowledgment_fails() {
    let mut core = fresh_core();
    assert_eq!(core.process_data(&CONNACK_REFUSED), Err(ClientError::Failed));
    assert!(!core.state.connected);
}

#[test]
fn clean_acknowledgment_connects_and_resets_the_session() {
    let core = connected_core();
    assert_eq!(core.state.packet_identifier, 1);
}

#[test]
fn anything_but_an_acknowledgment_while_unconnected_is_invalid() {
    let mut core = fresh_core();
    assert_eq!(
        core.process_data(&PUBLISH_ABC),
        Err(ClientError::Protocol(ProtocolError::Invalid))
    );
}

#[test]
fn suback_mismatch_is_invalid_and_keeps_the_identifier() {
    let mut core = connected_core();
    assert_eq!(core.process_data(&SUBACK_ID5), Err(ClientError::Invalid));
    assert_eq!(core.state.packet_identifier, 1);
}

#[test]
fn suback_match_advances_the_identifier() {
    let mut core = connected_core();
    let pubs = core.process_data(&SUBACK_ID1).unwrap();
    assert!(pubs.is_empty());
    assert_eq!(core.state.packet_identifier, 2);
}

#[test]
fn suback_with_failure_reason_fails() {
    let mut core = connected_core();
    assert_eq!(core.process_data(&SUBACK_ID1_FAILED), Err(ClientError::Failed));
    assert_eq!(core.state.packet_identifier, 1);
}

#[test]
fn connack_while_connected_is_invalid() {
    let mut core = connected_core();
    assert_eq!(core.process_data(&CONNACK_OK), Err(ClientError::Invalid));
}

#[test]
fn publish_is_forwarded_with_topic_and_payload() {
    let mut core = connected_core();
    let pubs = core.process_data(&PUBLISH_ABC).unwrap();
    assert_eq!(pubs.len(), 1);
    assert_eq!(pubs[0].topic, b"abc".to_vec());
    assert_eq!(pubs[0].payload, vec![0x01, 0x02]);
}

#[test]
fn one_read_can_hold_several_frames() {
    let mut core = fresh_core();
    let mut data: Vec<u8> = Vec::new();
    data.extend_from_slice(&CONNACK_OK);
    data.extend_from_slice(&PUBLISH_ABC);
    data.extend_from_slice(&SUBACK_ID1);
    let pubs = core.process_data(&data).unwrap();
    assert_eq!(pubs.len(), 1);
    assert_eq!(pubs[0].topic, b"abc".to_vec());
    assert!(core.state.connected);
    assert_eq!(core.state.packet_identifier, 2);
}

#[test]
fn frames_split_across_reads_are_reassembled() {
    let mut core = fresh_core();
    let mut data: Vec<u8> = Vec::new();
    data.extend_from_slice(&CONNACK_OK);
    data.extend_from_slice(&PUBLISH_ABC);
    for byte in &data {
        let pubs = core.process_data(&[*byte]).unwrap();
        if !pubs.is_empty() {
            assert_eq!(pubs[0].topic, b"abc".to_vec());
            assert_eq!(pubs[0].payload, vec![0x01, 0x02]);
        }
    }
    assert!(core.state.connected);
}

#[test]
fn an_oversized_frame_surfaces_as_a_disconnect() {
    let mut core = ClientCore::new(b"c".to_vec(), 10, 4);
    // declares 129 bytes, which can never fit the 4-byte buffer
    assert_eq!(
        core.process_data(&[0x30, 0x7f, 0x00, 0x00, 0x00]),
        Err(ClientError::Disconnected)
    );
}

#[test]
fn reconnect_resets_state_and_encodes_one_handshake() {
    let mut core = connected_core();
    // leave a partial frame buffered, as after a broken read
    core.process_data(&PUBLISH_ABC[..4]).unwrap();
    let n = core.prepare_reconnect().unwrap();
    assert!(!core.state.connected);
    assert_eq!(core.state.packet_identifier, 1);
    assert_eq!(core.reader.buffered_len(), 0);
    let expected = [
        0x10, 19, 0, 4, b'M', b'Q', b'T', b'T', 5, 2, 0, 10, 0, 0, 6, b'c', b'l', b'i', b'e',
        b'n', b't',
    ];
    assert_eq!(core.transmit_slice(n), &expected);
}

#[test]
fn prepare_publish_encodes_into_the_transmit_buffer() {
    let mut core = connected_core();
    let n = core.prepare_publish(b"t", &[9]).unwrap();
    assert_eq!(core.transmit_slice(n), &[0x30, 0x05, 0x00, 0x01, b't', 0x00, 0x09]);
}

#[test]
fn prepare_publish_rejects_what_cannot_fit() {
    let mut core = ClientCore::new(b"c".to_vec(), 10, 8);
    assert_eq!(
        core.prepare_publish(b"topic", &[0u8; 32]),
        Err(ProtocolError::DataSize)
    );
}
