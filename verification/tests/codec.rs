//! Tests for the wire codec: the remaining-length integer, the frame
//! encoders, and the frame decoder with its error taxonomy.

use minimq::codec::{decode_frame, encode_connect, encode_publish, rl_decode, rl_encode,
    ByteRange, ReceivedPacket};
use minimq::errors::ProtocolError;

fn rl_round_trip(v: u32, expected_len: usize) {
    let mut buf = vec![0u8; 8];
    let n = rl_encode(&mut buf, 0, v);
    assert_eq!(n, expected_len);
    assert_eq!(rl_decode(&buf, 0, n), Some((v, n)));
}

#[test]
fn remaining_length_boundary_values() {
    rl_round_trip(0, 1);
    rl_round_trip(127, 1);
    rl_round_trip(128, 2);
    rl_round_trip(16383, 2);
    rl_round_trip(16384, 3);
    rl_round_trip(2097151, 3);
    rl_round_trip(2097152, 4);
    rl_round_trip(268435455, 4);
}

#[test]
fn remaining_length_known_encodings() {
    let mut buf = vec![0u8; 8];
    let n = rl_encode(&mut buf, 0, 128);
    assert_eq!(&buf[..n], &[0x80, 0x01]);
    let n = rl_encode(&mut buf, 0, 321);
    assert_eq!(&buf[..n], &[0xc1, 0x02]);
}

#[test]
fn remaining_length_incomplete_and_offset() {
    // continuation byte with nothing after it: not yet parseable
    assert_eq!(rl_decode(&[0x80], 0, 1), None);
    // parsing respects the end bound
    assert_eq!(rl_decode(&[0x80, 0x01], 0, 1), None);
    // parsing at an offset
    assert_eq!(rl_decode(&[0xff, 0x05], 1, 2), Some((5, 1)));
}

#[test]
fn publish_encode_then_decode_round_trips() {
    let mut buf = vec![0u8; 64];
    let topic = b"sensors/temp";
    let payload = [0x01u8, 0x02, 0x03];
    let n = encode_publish(&mut buf, topic, &payload).unwrap();
    let frame = &buf[..n];
    match decode_frame(frame).unwrap() {
        ReceivedPacket::Publish { topic: t, payload: p } => {
            assert_eq!(&frame[t.start..t.end], topic);
            assert_eq!(&frame[p.start..p.end], &payload);
        },
        other => panic!("expected a publish, got {:?}", other),
    }
}

#[test]
fn publish_empty_payload_round_trips() {
    let mut buf = vec![0u8; 16];
    let n = encode_publish(&mut buf, b"t", &[]).unwrap();
    let frame = &buf[..n];
    match decode_frame(frame).unwrap() {
        ReceivedPacket::Publish { topic: t, payload: p } => {
            assert_eq!(&frame[t.start..t.end], b"t");
            assert_eq!(p.start, p.end);
        },
        other => panic!("expected a publish, got {:?}", other),
    }
}

#[test]
fn publish_too_large_for_buffer_is_data_size() {
    let mut buf = vec![0u8; 8];
    assert_eq!(
        encode_publish(&mut buf, b"topic", &[0u8; 16]),
        Err(ProtocolError::DataSize)
    );
    // the buffer is left untouched
    assert_eq!(buf, vec![0u8; 8]);
}

#[test]
fn connect_frame_exact_bytes() {
    let mut buf = vec![0u8; 32];
    let n = encode_connect(&mut buf, b"x", 10).unwrap();
    assert_eq!(
        &buf[..n],
        &[
            0x10, 14, // fixed header, remaining length
            0, 4, b'M', b'Q', b'T', b'T', 5, 2, // protocol id, level, clean-session flags
            0, 10, // keep-alive
            0,  // empty properties
            0, 1, b'x', // client identifier
        ]
    );
}

#[test]
fn connect_too_large_for_buffer_is_data_size() {
    let mut buf = vec![0u8; 4];
    assert_eq!(encode_connect(&mut buf, b"client", 10), Err(ProtocolError::DataSize));
}

#[test]
fn decode_connack_with_properties() {
    // session-present clear, reason 0, one two-byte property (receive maximum)
    let frame = [0x20u8, 0x06, 0x00, 0x00, 0x03, 0x21, 0x00, 0x0a];
    assert_eq!(
        decode_frame(&frame),
        Ok(ReceivedPacket::ConnAck { session_present: false, reason_code: 0 })
    );
}

#[test]
fn decode_suback() {
    let frame = [0x90u8, 0x03, 0x00, 0x05, 0x00];
    assert_eq!(
        decode_frame(&frame),
        Ok(ReceivedPacket::SubAck { packet_identifier: 5, reason_code: 0 })
    );
}

#[test]
fn decode_error_taxonomy() {
    // nothing at all
    assert_eq!(decode_frame(&[]), Err(ProtocolError::EmptyPacket));
    // the remaining-length integer never terminates
    assert_eq!(
        decode_frame(&[0x20, 0x80, 0x80, 0x80, 0x80]),
        Err(ProtocolError::MalformedInteger)
    );
    // declared length exceeds the bytes at hand
    assert_eq!(decode_frame(&[0x20, 0x05, 0x00]), Err(ProtocolError::PartialPacket));
    // more bytes than the declared length
    assert_eq!(decode_frame(&[0x20, 0x01, 0x00, 0x00]), Err(ProtocolError::MalformedPacket));
    // an unrecognized property identifier in a connection acknowledgment
    assert_eq!(
        decode_frame(&[0x20, 0x04, 0x00, 0x00, 0x01, 0xff]),
        Err(ProtocolError::UnknownProperty)
    );
    // a recognized message kind this client does not handle
    assert_eq!(decode_frame(&[0x40, 0x00]), Err(ProtocolError::UnsupportedPacket));
}

#[test]
fn byte_range_is_plain_data() {
    let r = ByteRange { start: 2, end: 5 };
    assert_eq!(r, ByteRange { start: 2, end: 5 });
}
