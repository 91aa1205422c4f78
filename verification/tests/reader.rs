//! Tests for the incremental packet reader: reassembly across arbitrary
//! chunk boundaries and the fixed-capacity bounds behavior.

use minimq::errors::ProtocolError;
use minimq::reader::PacketReader;

const SUBACK: [u8; 5] = [0x90, 0x03, 0x00, 0x01, 0x00];
const PUBLISH: [u8; 10] = [0x30, 0x08, 0x00, 0x03, b'a', b'b', b'c', 0x00, 0x01, 0x02];

/// Feeds `stream` in chunks of `step` bytes and returns the completed frames
/// in order, popping each as soon as it is available.
fn feed(stream: &[u8], step: usize) -> Vec<Vec<u8>> {
    let mut reader = PacketReader::new(64);
    let mut frames: Vec<Vec<u8>> = Vec::new();
    let mut fed = 0;
    while fed < stream.len() {
        let upto = (fed + step).min(stream.len());
        let mut chunk = &stream[fed..upto];
        while !chunk.is_empty() {
            let n = reader.append(chunk).unwrap();
            chunk = &chunk[n..];
            while reader.frame_available() {
                frames.push(reader.frame().to_vec());
                reader.pop_frame();
            }
        }
        fed = upto;
    }
    frames
}

#[test]
fn chunking_never_changes_the_frames() {
    let mut stream: Vec<u8> = Vec::new();
    stream.extend_from_slice(&SUBACK);
    stream.extend_from_slice(&PUBLISH);
    stream.extend_from_slice(&SUBACK);
    let whole = feed(&stream, stream.len());
    assert_eq!(whole.len(), 3);
    assert_eq!(whole[0], SUBACK.to_vec());
    assert_eq!(whole[1], PUBLISH.to_vec());
    assert_eq!(whole[2], SUBACK.to_vec());
    for step in 1..stream.len() {
        assert_eq!(feed(&stream, step), whole);
    }
}

#[test]
fn append_consumes_only_what_fits() {
    let mut reader = PacketReader::new(4);
    let n = reader.append(&[1, 2, 3, 4, 5, 6]).unwrap();
    assert_eq!(n, 4);
    assert_eq!(reader.buffered_len(), 4);
}

#[test]
fn oversized_frame_is_a_bounds_error_and_keeps_buffered_bytes() {
    let mut reader = PacketReader::new(4);
    // declares a frame of 129 bytes, far beyond the capacity of 4
    let n = reader.append(&[0x30, 0x7f, 0x00, 0x00]).unwrap();
    assert_eq!(n, 4);
    assert!(!reader.frame_available());
    assert_eq!(reader.append(&[0x00]), Err(ProtocolError::Bounds));
    // previously buffered partial data is intact
    assert_eq!(reader.buffered_len(), 4);
    assert_eq!(reader.append(&[0x00]), Err(ProtocolError::Bounds));
}

#[test]
fn full_buffer_with_a_complete_frame_is_not_an_error() {
    let mut reader = PacketReader::new(5);
    let n = reader.append(&SUBACK).unwrap();
    assert_eq!(n, 5);
    // zero bytes fit, but a frame is available to pop: no bounds error
    assert_eq!(reader.append(&[0x90]), Ok(0));
    assert!(reader.frame_available());
    assert_eq!(reader.frame(), &SUBACK);
    reader.pop_frame();
    assert_eq!(reader.buffered_len(), 0);
}

#[test]
fn pop_keeps_trailing_bytes_of_the_next_frame() {
    let mut reader = PacketReader::new(16);
    let mut stream: Vec<u8> = Vec::new();
    stream.extend_from_slice(&SUBACK);
    stream.extend_from_slice(&PUBLISH[..4]);
    assert_eq!(reader.append(&stream), Ok(9));
    assert!(reader.frame_available());
    assert_eq!(reader.frame(), &SUBACK);
    reader.pop_frame();
    assert_eq!(reader.buffered_len(), 4);
    assert!(!reader.frame_available());
    assert_eq!(reader.append(&PUBLISH[4..]), Ok(6));
    assert!(reader.frame_available());
    assert_eq!(reader.frame(), &PUBLISH);
}

#[test]
fn reset_discards_everything() {
    let mut reader = PacketReader::new(16);
    reader.append(&SUBACK).unwrap();
    reader.reset();
    assert_eq!(reader.buffered_len(), 0);
    assert!(!reader.frame_available());
}
