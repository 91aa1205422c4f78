//! Wire codec: stateless encode/decode between in-memory message values and
//! the binary framing format. A frame is one fixed-header byte (message type
//! in the high nibble, flags in the low nibble), a self-describing
//! remaining-length integer (1-4 bytes, 7 data bits per byte, high bit set on
//! every byte but the last), then the type-specific variable header and
//! payload. Strings are 2-byte big-endian length-prefixed byte runs.

use vstd::arithmetic::div_mod::{lemma_div_denominator, lemma_div_is_ordered};
use vstd::prelude::*;

use crate::errors::ProtocolError;

verus! {

/// Largest value the remaining-length integer can carry (four 7-bit groups).
pub const REMAINING_LENGTH_MAX: u32 = 0x0FFF_FFFF;

pub const TYPE_CONNECT: u8 = 1;

pub const TYPE_CONNACK: u8 = 2;

pub const TYPE_PUBLISH: u8 = 3;

pub const TYPE_SUBACK: u8 = 9;

/// The 1-4 byte wire encoding of a remaining-length value: least significant
/// 7-bit group first, continuation bit on every byte but the last.
pub open spec fn rl_encoding(v: int) -> Seq<u8>
    recommends
        0 <= v <= REMAINING_LENGTH_MAX,
{
    if v < 0x80 {
        seq![v as u8]
    } else if v < 0x4000 {
        seq![(v % 0x80 + 0x80) as u8, (v / 0x80) as u8]
    } else if v < 0x20_0000 {
        seq![(v % 0x80 + 0x80) as u8, ((v / 0x80) % 0x80 + 0x80) as u8, (v / 0x4000) as u8]
    } else {
        seq![
            (v % 0x80 + 0x80) as u8,
            ((v / 0x80) % 0x80 + 0x80) as u8,
            ((v / 0x4000) % 0x80 + 0x80) as u8,
            (v / 0x20_0000) as u8,
        ]
    }
}

/// Parses a remaining-length integer at position `at` of `b`: the decoded
/// value and the count of bytes it occupies, or `None` when no terminating
/// byte (high bit clear) lies within the first four bytes available.
pub open spec fn rl_parse(b: Seq<u8>, at: int) -> Option<(int, int)>
    recommends
        0 <= at,
{
    if at + 1 <= b.len() && b[at] < 0x80 {
        Some((b[at] as int, 1))
    } else if at + 2 <= b.len() && b[at + 1] < 0x80 {
        Some((b[at] - 0x80 + 0x80 * (b[at + 1] as int), 2))
    } else if at + 3 <= b.len() && b[at + 2] < 0x80 {
        Some((b[at] - 0x80 + 0x80 * (b[at + 1] - 0x80) + 0x4000 * (b[at + 2] as int), 3))
    } else if at + 4 <= b.len() && b[at + 3] < 0x80 {
        Some(
            (
                b[at] - 0x80 + 0x80 * (b[at + 1] - 0x80) + 0x4000 * (b[at + 2] - 0x80) + 0x20_0000
                    * (b[at + 3] as int),
                4,
            ),
        )
    } else {
        None
    }
}

/// Four continuation bytes in a row: the integer can never terminate.
pub open spec fn rl_malformed(b: Seq<u8>, at: int) -> bool
    recommends
        0 <= at,
{
    &&& at + 4 <= b.len()
    &&& b[at] >= 0x80
    &&& b[at + 1] >= 0x80
    &&& b[at + 2] >= 0x80
    &&& b[at + 3] >= 0x80
}

/// A parsed remaining-length integer is non-negative, fits in four 7-bit
/// groups, and lies entirely within the available bytes.
pub proof fn lemma_rl_parse_bounds(b: Seq<u8>, at: int)
    requires
        0 <= at,
        rl_parse(b, at) is Some,
    ensures
        ({
            let (v, k) = rl_parse(b, at)->Some_0;
            &&& 0 <= v <= REMAINING_LENGTH_MAX
            &&& 1 <= k <= 4
            &&& at + k <= b.len()
        }),
{
}

/// The remaining-length codec round-trips: parsing an encoding embedded at
/// position `at` of a longer byte sequence yields exactly the encoded value
/// and its byte count.
pub proof fn lemma_rl_round_trip(b: Seq<u8>, at: int, v: int)
    requires
        0 <= at,
        0 <= v <= REMAINING_LENGTH_MAX,
        at + rl_encoding(v).len() <= b.len(),
        b.subrange(at, at + rl_encoding(v).len()) == rl_encoding(v),
    ensures
        rl_parse(b, at) == Some((v, rl_encoding(v).len() as int)),
{
    let e = rl_encoding(v);
    assert(forall|i: int| 0 <= i < e.len() ==> b[at + i] == #[trigger] e[i]) by {
        assert(forall|i: int|
            0 <= i < e.len() ==> b[at + i] == #[trigger] b.subrange(at, at + e.len())[i]);
    }
    if v < 0x80 {
        assert(b[at + 0] == e[0]);
        assert(b[at] == v as u8);
    } else if v < 0x4000 {
        assert(b[at + 0] == e[0]);
        assert(b[at + 1] == e[1]);
        assert(b[at] == (v % 0x80 + 0x80) as u8);
        assert(b[at + 1] == (v / 0x80) as u8);
        lemma_div_is_ordered(v, 0x3fff, 0x80);
    } else if v < 0x20_0000 {
        assert(b[at + 0] == e[0]);
        assert(b[at + 1] == e[1]);
        assert(b[at + 2] == e[2]);
        assert(b[at] == (v % 0x80 + 0x80) as u8);
        assert(b[at + 1] == ((v / 0x80) % 0x80 + 0x80) as u8);
        assert(b[at + 2] == (v / 0x4000) as u8);
        lemma_div_is_ordered(v, 0x1f_ffff, 0x4000);
        lemma_div_denominator(v, 0x80, 0x80);
        assert(v / 0x80 == 0x80 * ((v / 0x80) / 0x80) + (v / 0x80) % 0x80);
        assert(v == 0x80 * (v / 0x80) + v % 0x80);
        assert(v == v % 0x80 + 0x80 * ((v / 0x80) % 0x80) + 0x4000 * (v / 0x4000));
    } else {
        assert(b[at + 0] == e[0]);
        assert(b[at + 1] == e[1]);
        assert(b[at + 2] == e[2]);
        assert(b[at + 3] == e[3]);
        assert(b[at] == (v % 0x80 + 0x80) as u8);
        assert(b[at + 1] == ((v / 0x80) % 0x80 + 0x80) as u8);
        assert(b[at + 2] == ((v / 0x4000) % 0x80 + 0x80) as u8);
        assert(b[at + 3] == (v / 0x20_0000) as u8);
        lemma_div_is_ordered(v, REMAINING_LENGTH_MAX as int, 0x20_0000);
        lemma_div_denominator(v, 0x80, 0x80);
        lemma_div_denominator(v, 0x4000, 0x80);
        assert(v == 0x80 * (v / 0x80) + v % 0x80);
        assert(v / 0x80 == 0x80 * ((v / 0x80) / 0x80) + (v / 0x80) % 0x80);
        assert(v / 0x4000 == 0x80 * ((v / 0x4000) / 0x80) + (v / 0x4000) % 0x80);
        assert(v == v % 0x80 + 0x80 * ((v / 0x80) % 0x80) + 0x4000 * ((v / 0x4000) % 0x80)
            + 0x20_0000 * (v / 0x20_0000));
    }
}

/// Writes the remaining-length encoding of `v` into `buf` starting at `pos`;
/// bytes outside the written range keep their values.
pub fn rl_encode(buf: &mut Vec<u8>, pos: usize, v: u32) -> (n: usize)
    requires
        v <= REMAINING_LENGTH_MAX,
        pos + rl_encoding(v as int).len() <= old(buf).len(),
    ensures
        final (buf).len() == old(buf).len(),
        1 <= n <= 4,
        n == rl_encoding(v as int).len(),
        final (buf)@.subrange(pos as int, pos + n) == rl_encoding(v as int),
        forall|i: int|
            0 <= i < final (buf)@.len() && !(pos <= i < pos + n) ==> final (buf)@[i] == old(
                buf,
            )@[i],
{
    if v < 0x80 {
        buf[pos] = v as u8;
        assert(buf@.subrange(pos as int, pos + 1) =~= rl_encoding(v as int));
        1
    } else if v < 0x4000 {
        buf[pos] = (v % 0x80 + 0x80) as u8;
        buf[pos + 1] = (v / 0x80) as u8;
        assert(buf@.subrange(pos as int, pos + 2) =~= rl_encoding(v as int));
        2
    } else if v < 0x20_0000 {
        buf[pos] = (v % 0x80 + 0x80) as u8;
        buf[pos + 1] = ((v / 0x80) % 0x80 + 0x80) as u8;
        buf[pos + 2] = (v / 0x4000) as u8;
        assert(buf@.subrange(pos as int, pos + 3) =~= rl_encoding(v as int));
        3
    } else {
        buf[pos] = (v % 0x80 + 0x80) as u8;
        buf[pos + 1] = ((v / 0x80) % 0x80 + 0x80) as u8;
        buf[pos + 2] = ((v / 0x4000) % 0x80 + 0x80) as u8;
        buf[pos + 3] = (v / 0x20_0000) as u8;
        assert(buf@.subrange(pos as int, pos + 4) =~= rl_encoding(v as int));
        4
    }
}

/// Reads a remaining-length integer from `bytes[at..end]`; mirrors
/// [`rl_parse`] on the first `end` bytes.
pub fn rl_decode(bytes: &[u8], at: usize, end: usize) -> (r: Option<(u32, usize)>)
    requires
        at <= end,
        end <= bytes@.len(),
    ensures
        ({
            let s = bytes@.take(end as int);
            match r {
                Some((v, k)) => {
                    &&& rl_parse(s, at as int) == Some((v as int, k as int))
                    &&& v <= REMAINING_LENGTH_MAX
                    &&& 1 <= k <= 4
                    &&& at + k <= end
                },
                None => rl_parse(s, at as int) is None,
            }
        }),
{
    let ghost s = bytes@.take(end as int);
    let avail = end - at;
    if avail >= 1 && bytes[at] < 0x80 {
        assert(s[at as int] == bytes@[at as int]);
        Some((bytes[at] as u32, 1))
    } else if avail >= 2 && bytes[at + 1] < 0x80 {
        let v = (bytes[at] - 0x80) as u32 + 0x80 * (bytes[at + 1] as u32);
        Some((v, 2))
    } else if avail >= 3 && bytes[at + 2] < 0x80 {
        let v = (bytes[at] - 0x80) as u32 + 0x80 * ((bytes[at + 1] - 0x80) as u32) + 0x4000 * (
        bytes[at + 2] as u32);
        Some((v, 3))
    } else if avail >= 4 && bytes[at + 3] < 0x80 {
        let v = (bytes[at] - 0x80) as u32 + 0x80 * ((bytes[at + 1] - 0x80) as u32) + 0x4000 * ((
        bytes[at + 2] - 0x80) as u32) + 0x20_0000 * (bytes[at + 3] as u32);
        Some((v, 4))
    } else {
        None
    }
}

/// Big-endian 2-byte encoding, used for string length prefixes and packet
/// identifiers.
pub open spec fn u16_be(v: int) -> Seq<u8>
    recommends
        0 <= v <= 0xffff,
{
    seq![(v / 0x100) as u8, (v % 0x100) as u8]
}

/// Declared total size of the frame at the start of `b` (header byte,
/// remaining-length prefix, and remaining length), as soon as the prefix is
/// fully present; `None` while it is not, or when it can never terminate.
pub open spec fn frame_size(b: Seq<u8>) -> Option<int> {
    match rl_parse(b, 1) {
        Some((v, k)) => Some(1 + k + v),
        None => None,
    }
}

/// True exactly when the remaining-length prefix is fully present and `b`
/// already holds the whole frame it declares.
pub open spec fn frame_ready(b: Seq<u8>) -> bool {
    match frame_size(b) {
        Some(n) => b.len() >= n,
        None => false,
    }
}

/// A declared frame is at least header plus one prefix byte long.
pub proof fn lemma_frame_size_bounds(b: Seq<u8>)
    requires
        frame_size(b) is Some,
    ensures
        2 <= frame_size(b)->Some_0,
        frame_ready(b) ==> frame_size(b)->Some_0 <= b.len(),
{
    lemma_rl_parse_bounds(b, 1);
}

/// Frame parsing only reads the declared bytes: extending the sequence keeps
/// an already-determined frame size.
pub proof fn lemma_frame_size_extend(b: Seq<u8>, ext: Seq<u8>)
    requires
        frame_size(b) is Some,
    ensures
        frame_size(b + ext) == frame_size(b),
{
    lemma_rl_parse_bounds(b, 1);
    assert(forall|i: int| 0 <= i < b.len() ==> (b + ext)[i] == b[i]);
}

/// Variable-header and payload bytes of a connect frame: protocol
/// identification, protocol level, connect flags (clean session only),
/// keep-alive, empty properties, and the length-prefixed client identifier.
pub open spec fn connect_body(client_id: Seq<u8>, keep_alive: int) -> Seq<u8> {
    seq![0u8, 4u8, 0x4du8, 0x51u8, 0x54u8, 0x54u8, 5u8, 2u8] + u16_be(keep_alive) + seq![0u8]
        + u16_be(client_id.len() as int) + client_id
}

/// The whole connect frame as it goes on the wire.
pub open spec fn connect_frame(client_id: Seq<u8>, keep_alive: int) -> Seq<u8> {
    seq![0x10u8] + rl_encoding(connect_body(client_id, keep_alive).len() as int) + connect_body(
        client_id,
        keep_alive,
    )
}

/// Variable-header and payload bytes of a publish frame: length-prefixed
/// topic, empty properties, then the raw payload.
pub open spec fn publish_body(topic: Seq<u8>, payload: Seq<u8>) -> Seq<u8> {
    u16_be(topic.len() as int) + topic + seq![0u8] + payload
}

/// The whole publish frame (at-most-once delivery, no retain, no duplicate).
pub open spec fn publish_frame(topic: Seq<u8>, payload: Seq<u8>) -> Seq<u8> {
    seq![0x30u8] + rl_encoding(publish_body(topic, payload).len() as int) + publish_body(
        topic,
        payload,
    )
}

/// Whether a connect frame for this identity fits a transmit buffer of
/// capacity `cap` and the format's own limits.
pub open spec fn connect_fits(client_id: Seq<u8>, cap: int) -> bool {
    &&& client_id.len() <= 0xffff
    &&& connect_frame(client_id, 0).len() <= cap
}

/// Whether a publish frame for this topic and payload fits a transmit buffer
/// of capacity `cap` and the format's own limits.
pub open spec fn publish_fits(topic: Seq<u8>, payload: Seq<u8>, cap: int) -> bool {
    &&& topic.len() <= 0xffff
    &&& publish_body(topic, payload).len() <= REMAINING_LENGTH_MAX
    &&& publish_frame(topic, payload).len() <= cap
}

/// A non-owning view into the frame that produced it: the half-open byte
/// range `start..end`. Valid only until the producing buffer is mutated.
#[derive(Debug, Copy, Clone, PartialEq, Eq, Structural)]
pub struct ByteRange {
    pub start: usize,
    pub end: usize,
}

/// An inbound frame, decoded. Unrecognized kinds never reach this type: they
/// decode to `UnsupportedPacket` instead of being silently dropped.
#[derive(Debug, Copy, Clone, PartialEq, Eq, Structural)]
pub enum ReceivedPacket {
    /// Connection acknowledgment: session-present flag and reason code.
    ConnAck { session_present: bool, reason_code: u8 },
    /// Subscription acknowledgment: packet identifier and reason code.
    SubAck { packet_identifier: u16, reason_code: u8 },
    /// Application message: topic and payload as ranges into the frame.
    Publish { topic: ByteRange, payload: ByteRange },
}

/// Property identifiers whose value is a single byte.
pub open spec fn prop_one_byte(id: u8) -> bool {
    id == 0x24 || id == 0x25 || id == 0x28 || id == 0x29 || id == 0x2a
}

/// Property identifiers whose value is two bytes.
pub open spec fn prop_two_byte(id: u8) -> bool {
    id == 0x13 || id == 0x21 || id == 0x22
}

/// Property identifiers whose value is four bytes.
pub open spec fn prop_four_byte(id: u8) -> bool {
    id == 0x11 || id == 0x27
}

/// Property identifiers whose value is a 2-byte length-prefixed byte run.
pub open spec fn prop_length_prefixed(id: u8) -> bool {
    id == 0x12 || id == 0x15 || id == 0x16 || id == 0x1a || id == 0x1c || id == 0x1f
}

/// Walks the property block `b[pos..end]`: `UnknownProperty` on an identifier
/// outside the recognized set, `MalformedPacket` when a value runs past the
/// block's end.
pub open spec fn check_props(b: Seq<u8>, pos: int, end: int) -> Result<(), ProtocolError>
    recommends
        0 <= pos,
        end <= b.len(),
    decreases end - pos,
{
    if pos >= end {
        Ok(())
    } else {
        let id = b[pos];
        if prop_one_byte(id) {
            if pos + 2 <= end {
                check_props(b, pos + 2, end)
            } else {
                Err(ProtocolError::MalformedPacket)
            }
        } else if prop_two_byte(id) {
            if pos + 3 <= end {
                check_props(b, pos + 3, end)
            } else {
                Err(ProtocolError::MalformedPacket)
            }
        } else if prop_four_byte(id) {
            if pos + 5 <= end {
                check_props(b, pos + 5, end)
            } else {
                Err(ProtocolError::MalformedPacket)
            }
        } else if prop_length_prefixed(id) {
            if pos + 3 <= end {
                let l = 0x100 * (b[pos + 1] as int) + b[pos + 2];
                if pos + 3 + l <= end {
                    check_props(b, pos + 3 + l, end)
                } else {
                    Err(ProtocolError::MalformedPacket)
                }
            } else {
                Err(ProtocolError::MalformedPacket)
            }
        } else if id == 0x26 {
            // user property: two length-prefixed strings
            if pos + 3 <= end {
                let l1 = 0x100 * (b[pos + 1] as int) + b[pos + 2];
                if pos + 5 + l1 <= end {
                    let l2 = 0x100 * (b[pos + 3 + l1] as int) + b[pos + 4 + l1];
                    if pos + 5 + l1 + l2 <= end {
                        check_props(b, pos + 5 + l1 + l2, end)
                    } else {
                        Err(ProtocolError::MalformedPacket)
                    }
                } else {
                    Err(ProtocolError::MalformedPacket)
                }
            } else {
                Err(ProtocolError::MalformedPacket)
            }
        } else {
            Err(ProtocolError::UnknownProperty)
        }
    }
}

/// Connection acknowledgment: session-present bit, reason code, optional
/// property block.
pub open spec fn parse_connack(b: Seq<u8>, s: int) -> Result<ReceivedPacket, ProtocolError> {
    if b.len() - s < 2 {
        Err(ProtocolError::MalformedPacket)
    } else {
        let pkt = ReceivedPacket::ConnAck {
            session_present: b[s] % 2 == 1,
            reason_code: b[s + 1],
        };
        if s + 2 == b.len() {
            Ok(pkt)
        } else {
            match rl_parse(b, s + 2) {
                None => if rl_malformed(b, s + 2) {
                    Err(ProtocolError::MalformedInteger)
                } else {
                    Err(ProtocolError::MalformedPacket)
                },
                Some((plen, pk)) => if s + 2 + pk + plen == b.len() {
                    match check_props(b, s + 2 + pk, b.len() as int) {
                        Ok(_) => Ok(pkt),
                        Err(e) => Err(e),
                    }
                } else {
                    Err(ProtocolError::MalformedPacket)
                },
            }
        }
    }
}

/// Subscription acknowledgment: 2-byte packet identifier and reason code.
pub open spec fn parse_suback(b: Seq<u8>, s: int) -> Result<ReceivedPacket, ProtocolError> {
    if b.len() - s < 3 {
        Err(ProtocolError::MalformedPacket)
    } else {
        Ok(
            ReceivedPacket::SubAck {
                packet_identifier: (0x100 * (b[s] as int) + b[s + 1]) as u16,
                reason_code: b[s + 2],
            },
        )
    }
}

/// Application message: length-prefixed topic, property block, payload; topic
/// and payload come back as ranges into the frame, never copied.
pub open spec fn parse_publish(b: Seq<u8>, s: int) -> Result<ReceivedPacket, ProtocolError> {
    if b.len() - s < 2 {
        Err(ProtocolError::MalformedPacket)
    } else {
        let tl = 0x100 * (b[s] as int) + b[s + 1];
        if s + 2 + tl > b.len() {
            Err(ProtocolError::MalformedPacket)
        } else {
            match rl_parse(b, s + 2 + tl) {
                None => if rl_malformed(b, s + 2 + tl) {
                    Err(ProtocolError::MalformedInteger)
                } else {
                    Err(ProtocolError::MalformedPacket)
                },
                Some((plen, pk)) => if s + 2 + tl + pk + plen <= b.len() {
                    Ok(
                        ReceivedPacket::Publish {
                            topic: ByteRange { start: (s + 2) as usize, end: (s + 2 + tl) as usize },
                            payload: ByteRange {
                                start: (s + 2 + tl + pk + plen) as usize,
                                end: b.len() as usize,
                            },
                        },
                    )
                } else {
                    Err(ProtocolError::MalformedPacket)
                },
            }
        }
    }
}

/// What decoding a complete frame yields: the reference for [`decode_frame`].
pub open spec fn parse_frame(b: Seq<u8>) -> Result<ReceivedPacket, ProtocolError> {
    if b.len() == 0 {
        Err(ProtocolError::EmptyPacket)
    } else {
        match rl_parse(b, 1) {
            None => if rl_malformed(b, 1) {
                Err(ProtocolError::MalformedInteger)
            } else {
                Err(ProtocolError::PartialPacket)
            },
            Some((v, k)) => {
                if b.len() < 1 + k + v {
                    Err(ProtocolError::PartialPacket)
                } else if b.len() > 1 + k + v {
                    Err(ProtocolError::MalformedPacket)
                } else {
                    let t = b[0] / 16;
                    if t == TYPE_CONNACK {
                        parse_connack(b, 1 + k)
                    } else if t == TYPE_PUBLISH {
                        parse_publish(b, 1 + k)
                    } else if t == TYPE_SUBACK {
                        parse_suback(b, 1 + k)
                    } else {
                        Err(ProtocolError::UnsupportedPacket)
                    }
                }
            },
        }
    }
}

/// Copies `src` into `buf` starting at `pos`; bytes outside keep their values.
fn write_bytes(buf: &mut Vec<u8>, pos: usize, src: &[u8])
    requires
        pos + src@.len() <= old(buf).len(),
    ensures
        final (buf).len() == old(buf).len(),
        final (buf)@.subrange(pos as int, pos + src@.len()) == src@,
        forall|i: int|
            0 <= i < final (buf)@.len() && !(pos <= i < pos + src@.len()) ==> final (buf)@[i]
                == old(buf)@[i],
{
    let mut i: usize = 0;
    while i < src.len()
        invariant
            i <= src@.len(),
            pos + src@.len() <= buf.len(),
            buf.len() == old(buf).len(),
            forall|j: int| 0 <= j < i ==> buf@[pos + j] == src@[j],
            forall|j: int|
                0 <= j < buf@.len() && !(pos <= j < pos + i) ==> buf@[j] == old(buf)@[j],
        decreases src@.len() - i,
    {
        buf[pos + i] = src[i];
        i = i + 1;
    }
    assert(buf@.subrange(pos as int, pos + src@.len()) =~= src@);
}

/// Writes `v` big-endian into two bytes at `pos`.
fn write_u16_be(buf: &mut Vec<u8>, pos: usize, v: u16)
    requires
        pos + 2 <= old(buf).len(),
    ensures
        final (buf).len() == old(buf).len(),
        final (buf)@.subrange(pos as int, pos + 2) == u16_be(v as int),
        forall|i: int|
            0 <= i < final (buf)@.len() && !(pos <= i < pos + 2) ==> final (buf)@[i] == old(
                buf,
            )@[i],
{
    buf[pos] = (v / 0x100) as u8;
    buf[pos + 1] = (v % 0x100) as u8;
    assert(buf@.subrange(pos as int, pos + 2) =~= u16_be(v as int));
}

/// Encodes a connect frame into the fixed transmit buffer and returns the
/// byte count written. Fails with `DataSize` exactly when the identity does
/// not fit the buffer or the format.
pub fn encode_connect(buf: &mut Vec<u8>, client_id: &[u8], keep_alive: u16) -> (r: Result<
    usize,
    ProtocolError,
>)
    ensures
        final (buf).len() == old(buf).len(),
        match r {
            Ok(n) => {
                &&& connect_fits(client_id@, old(buf).len() as int)
                &&& n == connect_frame(client_id@, keep_alive as int).len()
                &&& final (buf)@.subrange(0, n as int) == connect_frame(
                    client_id@,
                    keep_alive as int,
                )
            },
            Err(e) => {
                &&& e == ProtocolError::DataSize
                &&& !connect_fits(client_id@, old(buf).len() as int)
                &&& final (buf)@ == old(buf)@
            },
        },
{
    let ghost cid = client_id@;
    let ghost body = connect_body(cid, keep_alive as int);
    if client_id.len() > 0xffff {
        return Err(ProtocolError::DataSize);
    }
    // body = 8 fixed bytes + 2 keep-alive + 1 properties + 2 id prefix + id
    let body_len = 13 + client_id.len();
    assert(body.len() == body_len);
    let rl_len: usize = if body_len < 0x80 {
        1
    } else if body_len < 0x4000 {
        2
    } else {
        3
    };
    assert(rl_len == rl_encoding(body_len as int).len());
    if buf.len() < 1 + rl_len || buf.len() - 1 - rl_len < body_len {
        proof {
            if connect_fits(cid, old(buf).len() as int) {
                assert(connect_frame(cid, 0).len() == 1 + rl_len + body_len);
            }
        }
        return Err(ProtocolError::DataSize);
    }
    buf[0] = TYPE_CONNECT * 16;
    let k = rl_encode(buf, 1, body_len as u32);
    let p = 1 + k;
    let head: [u8; 8] = [0u8, 4u8, 0x4du8, 0x51u8, 0x54u8, 0x54u8, 5u8, 2u8];
    write_bytes(buf, p, head.as_slice());
    write_u16_be(buf, p + 8, keep_alive);
    buf[p + 10] = 0u8;
    write_u16_be(buf, p + 11, client_id.len() as u16);
    write_bytes(buf, p + 13, client_id);
    let n = p + 13 + client_id.len();
    proof {
        let fr = connect_frame(cid, keep_alive as int);
        assert(fr.len() == n);
        assert(buf@.subrange(p + 13, n as int) =~= cid);
        assert(buf@.subrange(0, n as int) =~= fr);
        assert(connect_frame(cid, 0).len() == fr.len());
    }
    Ok(n)
}

/// Encodes a publish frame into the fixed transmit buffer and returns the
/// byte count written. Fails with `DataSize` exactly when header, topic and
/// payload together exceed the buffer or the format's limits.
#[verifier::rlimit(60)]
pub fn encode_publish(buf: &mut Vec<u8>, topic: &[u8], payload: &[u8]) -> (r: Result<
    usize,
    ProtocolError,
>)
    ensures
        final (buf).len() == old(buf).len(),
        match r {
            Ok(n) => {
                &&& publish_fits(topic@, payload@, old(buf).len() as int)
                &&& n == publish_frame(topic@, payload@).len()
                &&& final (buf)@.subrange(0, n as int) == publish_frame(topic@, payload@)
            },
            Err(e) => {
                &&& e == ProtocolError::DataSize
                &&& !publish_fits(topic@, payload@, old(buf).len() as int)
                &&& final (buf)@ == old(buf)@
            },
        },
{
    let ghost tp = topic@;
    let ghost pl = payload@;
    let ghost body = publish_body(tp, pl);
    if topic.len() > 0xffff {
        return Err(ProtocolError::DataSize);
    }
    if payload.len() > (REMAINING_LENGTH_MAX as usize) - 3
        || topic.len() > (REMAINING_LENGTH_MAX as usize) - 3 - payload.len() {
        return Err(ProtocolError::DataSize);
    }
    let body_len = 3 + topic.len() + payload.len();
    assert(body.len() == body_len);
    let rl_len: usize = if body_len < 0x80 {
        1
    } else if body_len < 0x4000 {
        2
    } else if body_len < 0x20_0000 {
        3
    } else {
        4
    };
    assert(rl_len == rl_encoding(body_len as int).len());
    if buf.len() < 1 + rl_len || buf.len() - 1 - rl_len < body_len {
        proof {
            if publish_fits(tp, pl, old(buf).len() as int) {
                assert(publish_frame(tp, pl).len() == 1 + rl_len + body_len);
            }
        }
        return Err(ProtocolError::DataSize);
    }
    buf[0] = TYPE_PUBLISH * 16;
    let k = rl_encode(buf, 1, body_len as u32);
    let p = 1 + k;
    write_u16_be(buf, p, topic.len() as u16);
    write_bytes(buf, p + 2, topic);
    buf[p + 2 + topic.len()] = 0u8;
    write_bytes(buf, p + 3 + topic.len(), payload);
    let n = p + 3 + topic.len() + payload.len();
    proof {
        let fr = publish_frame(tp, pl);
        assert(fr.len() == n);
        assert(buf@.subrange(p + 2, p + 2 + tp.len() as int) =~= tp);
        assert(buf@.subrange(p + 3 + tp.len() as int, n as int) =~= pl);
        assert(buf@.subrange(0, n as int) =~= fr);
    }
    Ok(n)
}

/// Encoding a publish message and decoding the resulting frame yields a
/// publish packet whose topic and payload ranges select exactly the bytes
/// that went in.
pub proof fn lemma_publish_round_trip(topic: Seq<u8>, payload: Seq<u8>)
    requires
        topic.len() <= 0xffff,
        publish_body(topic, payload).len() <= REMAINING_LENGTH_MAX,
    ensures
        ({
            let fr = publish_frame(topic, payload);
            match parse_frame(fr) {
                Ok(pkt) => match pkt {
                    ReceivedPacket::Publish { topic: t, payload: p } => {
                        &&& fr.subrange(t.start as int, t.end as int) == topic
                        &&& fr.subrange(p.start as int, p.end as int) == payload
                    },
                    _ => false,
                },
                Err(_) => false,
            }
        }),
{
    let body = publish_body(topic, payload);
    let blen = body.len() as int;
    let fr = publish_frame(topic, payload);
    let e = rl_encoding(blen);
    let k = e.len() as int;
    assert(fr.len() == 1 + k + blen);
    assert(fr.subrange(1, 1 + k) =~= e);
    lemma_rl_round_trip(fr, 1, blen);
    assert(fr[0] == 0x30);
    assert(fr[0] / 16 == TYPE_PUBLISH);
    let s = 1 + k;
    let tl = topic.len() as int;
    assert(blen == 3 + tl + payload.len());
    assert(fr[s] == (tl / 0x100) as u8);
    assert(fr[s + 1] == (tl % 0x100) as u8);
    assert(0x100 * (fr[s] as int) + fr[s + 1] == tl);
    assert(fr[s + 2 + tl] == 0u8);
    assert(rl_parse(fr, s + 2 + tl) == Some((0int, 1int)));
    assert(fr.subrange(s + 2, s + 2 + tl) =~= topic);
    assert(fr.subrange(s + 2 + tl + 1, fr.len() as int) =~= payload);
}

/// Walks the property block `bytes[start..end]`; mirrors [`check_props`].
fn check_properties(bytes: &[u8], start: usize, end: usize) -> (r: Result<(), ProtocolError>)
    requires
        start <= end,
        end <= bytes@.len(),
    ensures
        r == check_props(bytes@, start as int, end as int),
{
    let mut pos = start;
    while pos < end
        invariant
            start <= pos <= end,
            end <= bytes@.len(),
            check_props(bytes@, start as int, end as int) == check_props(
                bytes@,
                pos as int,
                end as int,
            ),
        decreases end - pos,
    {
        let id = bytes[pos];
        if id == 0x24 || id == 0x25 || id == 0x28 || id == 0x29 || id == 0x2a {
            if end - pos >= 2 {
                pos = pos + 2;
            } else {
                return Err(ProtocolError::MalformedPacket);
            }
        } else if id == 0x13 || id == 0x21 || id == 0x22 {
            if end - pos >= 3 {
                pos = pos + 3;
            } else {
                return Err(ProtocolError::MalformedPacket);
            }
        } else if id == 0x11 || id == 0x27 {
            if end - pos >= 5 {
                pos = pos + 5;
            } else {
                return Err(ProtocolError::MalformedPacket);
            }
        } else if id == 0x12 || id == 0x15 || id == 0x16 || id == 0x1a || id == 0x1c || id == 0x1f {
            if end - pos >= 3 {
                let l = 0x100 * (bytes[pos + 1] as usize) + (bytes[pos + 2] as usize);
                if l <= end - (pos + 3) {
                    pos = pos + 3 + l;
                } else {
                    return Err(ProtocolError::MalformedPacket);
                }
            } else {
                return Err(ProtocolError::MalformedPacket);
            }
        } else if id == 0x26 {
            if end - pos >= 3 {
                let l1 = 0x100 * (bytes[pos + 1] as usize) + (bytes[pos + 2] as usize);
                if end - pos >= 5 && l1 <= end - (pos + 5) {
                    let l2 = 0x100 * (bytes[pos + 3 + l1] as usize) + (bytes[pos + 4 + l1]
                        as usize);
                    if l2 <= end - (pos + 5 + l1) {
                        pos = pos + 5 + l1 + l2;
                    } else {
                        return Err(ProtocolError::MalformedPacket);
                    }
                } else {
                    return Err(ProtocolError::MalformedPacket);
                }
            } else {
                return Err(ProtocolError::MalformedPacket);
            }
        } else {
            return Err(ProtocolError::UnknownProperty);
        }
    }
    Ok(())
}

/// Decodes the connection-acknowledgment variable header at `s`.
fn decode_connack(frame: &[u8], s: usize) -> (r: Result<ReceivedPacket, ProtocolError>)
    requires
        s <= frame@.len(),
    ensures
        r == parse_connack(frame@, s as int),
{
    let len = frame.len();
    if len - s < 2 {
        return Err(ProtocolError::MalformedPacket);
    }
    let pkt = ReceivedPacket::ConnAck {
        session_present: frame[s] % 2 == 1,
        reason_code: frame[s + 1],
    };
    if s + 2 == len {
        return Ok(pkt);
    }
    proof {
        assert(frame@.take(len as int) =~= frame@);
    }
    match rl_decode(frame, s + 2, len) {
        None => {
            if len - (s + 2) >= 4 && frame[s + 2] >= 0x80 && frame[s + 3] >= 0x80 && frame[s + 4]
                >= 0x80 && frame[s + 5] >= 0x80 {
                Err(ProtocolError::MalformedInteger)
            } else {
                Err(ProtocolError::MalformedPacket)
            }
        },
        Some((plen, pk)) => {
            if plen as usize == len - (s + 2 + pk) {
                match check_properties(frame, s + 2 + pk, len) {
                    Ok(_) => Ok(pkt),
                    Err(e) => Err(e),
                }
            } else {
                Err(ProtocolError::MalformedPacket)
            }
        },
    }
}

/// Decodes the subscription-acknowledgment variable header at `s`.
fn decode_suback(frame: &[u8], s: usize) -> (r: Result<ReceivedPacket, ProtocolError>)
    requires
        s <= frame@.len(),
    ensures
        r == parse_suback(frame@, s as int),
{
    let len = frame.len();
    if len - s < 3 {
        return Err(ProtocolError::MalformedPacket);
    }
    Ok(
        ReceivedPacket::SubAck {
            packet_identifier: 0x100 * (frame[s] as u16) + (frame[s + 1] as u16),
            reason_code: frame[s + 2],
        },
    )
}

/// Decodes the publish variable header and payload bounds at `s`.
fn decode_publish(frame: &[u8], s: usize) -> (r: Result<ReceivedPacket, ProtocolError>)
    requires
        s <= frame@.len(),
    ensures
        r == parse_publish(frame@, s as int),
{
    let len = frame.len();
    if len - s < 2 {
        return Err(ProtocolError::MalformedPacket);
    }
    let tl = 0x100 * (frame[s] as usize) + (frame[s + 1] as usize);
    if tl > len - (s + 2) {
        return Err(ProtocolError::MalformedPacket);
    }
    let te = s + 2 + tl;
    proof {
        assert(frame@.take(len as int) =~= frame@);
    }
    match rl_decode(frame, te, len) {
        None => {
            if len - te >= 4 && frame[te] >= 0x80 && frame[te + 1] >= 0x80 && frame[te + 2] >= 0x80
                && frame[te + 3] >= 0x80 {
                Err(ProtocolError::MalformedInteger)
            } else {
                Err(ProtocolError::MalformedPacket)
            }
        },
        Some((plen, pk)) => {
            if plen as usize <= len - (te + pk) {
                Ok(
                    ReceivedPacket::Publish {
                        topic: ByteRange { start: s + 2, end: te },
                        payload: ByteRange { start: te + pk + plen as usize, end: len },
                    },
                )
            } else {
                Err(ProtocolError::MalformedPacket)
            }
        },
    }
}

/// Decodes one complete frame; [`parse_frame`] says exactly what comes back
/// for every input, success and each error alike.
pub fn decode_frame(frame: &[u8]) -> (r: Result<ReceivedPacket, ProtocolError>)
    ensures
        r == parse_frame(frame@),
{
    let len = frame.len();
    if len == 0 {
        return Err(ProtocolError::EmptyPacket);
    }
    proof {
        assert(frame@.take(len as int) =~= frame@);
    }
    match rl_decode(frame, 1, len) {
        None => {
            if len >= 5 && frame[1] >= 0x80 && frame[2] >= 0x80 && frame[3] >= 0x80 && frame[4]
                >= 0x80 {
                Err(ProtocolError::MalformedInteger)
            } else {
                Err(ProtocolError::PartialPacket)
            }
        },
        Some((v, k)) => {
            if len - 1 - k < v as usize {
                return Err(ProtocolError::PartialPacket);
            }
            if len - 1 - k > v as usize {
                return Err(ProtocolError::MalformedPacket);
            }
            let t = frame[0] / 16;
            if t == TYPE_CONNACK {
                decode_connack(frame, 1 + k)
            } else if t == TYPE_PUBLISH {
                decode_publish(frame, 1 + k)
            } else if t == TYPE_SUBACK {
                decode_suback(frame, 1 + k)
            } else {
                Err(ProtocolError::UnsupportedPacket)
            }
        },
    }
}

} // verus!
