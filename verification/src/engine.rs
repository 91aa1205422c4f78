//! Connection state machine and protocol engine. The engine owns the session
//! state, the packet reader and the transmit buffer; it never touches the
//! transport. The caller reads and writes the socket, hands inbound bytes to
//! [`ClientCore::process_data`], and sends the bytes the engine encodes.

use vstd::prelude::*;

use crate::codec::{connect_fits, connect_frame, encode_connect, encode_publish, decode_frame,
    frame_ready, frame_size, lemma_frame_size_bounds, parse_frame, publish_fits, publish_frame,
    ByteRange, ReceivedPacket};
use crate::errors::{ClientError, ProtocolError};
use crate::reader::{frames_of, lemma_feed_split, residue, PacketReader};
use crate::session::{next_identifier, SessionState};

verus! {

/// One inbound application message, handed to the caller's handler: topic
/// bytes and payload bytes.
#[derive(Debug, Clone, PartialEq, Eq)]
pub struct Publication {
    pub topic: Vec<u8>,
    pub payload: Vec<u8>,
}

/// The byte-level view of a publication.
pub open spec fn publication_view(p: Publication) -> (Seq<u8>, Seq<u8>) {
    (p.topic@, p.payload@)
}

/// The connection state machine's step on one decoded packet. While the
/// handshake is unacknowledged only a clean, non-resumed acknowledgment is
/// accepted; while connected, publishes are forwarded and subscription
/// acknowledgments must carry the outstanding identifier. The step yields the
/// next session state and whether the packet is forwarded to the handler.
pub open spec fn handle_spec(st: SessionState, pkt: ReceivedPacket) -> Result<
    (SessionState, bool),
    ClientError,
> {
    if !st.connected {
        match pkt {
            ReceivedPacket::ConnAck { session_present, reason_code } => {
                if reason_code != 0 {
                    Err(ClientError::Failed)
                } else if session_present {
                    // resumed sessions are unsupported
                    Err(ClientError::Failed)
                } else {
                    Ok(
                        (
                            SessionState {
                                client_id: st.client_id,
                                keep_alive_interval: st.keep_alive_interval,
                                connected: true,
                                packet_identifier: 1,
                            },
                            false,
                        ),
                    )
                }
            },
            _ => Err(ClientError::Protocol(ProtocolError::Invalid)),
        }
    } else {
        match pkt {
            ReceivedPacket::Publish { .. } => Ok((st, true)),
            ReceivedPacket::SubAck { packet_identifier, reason_code } => {
                if packet_identifier != st.packet_identifier {
                    Err(ClientError::Invalid)
                } else if reason_code != 0 {
                    Err(ClientError::Failed)
                } else {
                    Ok(
                        (
                            SessionState {
                                client_id: st.client_id,
                                keep_alive_interval: st.keep_alive_interval,
                                connected: st.connected,
                                packet_identifier: next_identifier(st.packet_identifier),
                            },
                            false,
                        ),
                    )
                }
            },
            ReceivedPacket::ConnAck { .. } => Err(ClientError::Invalid),
        }
    }
}

/// A connection acknowledgment with session-present set drives the state
/// machine to `Failed` regardless of its reason code.
pub proof fn lemma_session_present_rejected(st: SessionState, reason_code: u8)
    requires
        !st.connected,
    ensures
        handle_spec(
            st,
            ReceivedPacket::ConnAck { session_present: true, reason_code },
        ) == Err::<(SessionState, bool), ClientError>(ClientError::Failed),
{
}

/// A subscription acknowledgment whose identifier does not match the
/// outstanding one is rejected; [`handle_packet`] then leaves the session
/// state — the identifier counter included — unchanged.
pub proof fn lemma_suback_mismatch_rejected(st: SessionState, pid: u16, reason_code: u8)
    requires
        st.connected,
        pid != st.packet_identifier,
    ensures
        handle_spec(
            st,
            ReceivedPacket::SubAck { packet_identifier: pid, reason_code },
        ) == Err::<(SessionState, bool), ClientError>(ClientError::Invalid),
{
}

/// Dispatches one decoded packet through the connection state machine;
/// [`handle_spec`] is the exact step. On any error the session state is left
/// unchanged.
pub fn handle_packet(state: &mut SessionState, packet: &ReceivedPacket) -> (r: Result<
    bool,
    ClientError,
>)
    requires
        old(state).wf(),
    ensures
        final (state).wf(),
        final (state).identity() == old(state).identity(),
        match handle_spec(*old(state), *packet) {
            Ok((st2, deliver)) => r == Ok::<bool, ClientError>(deliver) && *final (state) == st2,
            Err(e) => r == Err::<bool, ClientError>(e) && *final (state) == *old(state),
        },
{
    if !state.connected {
        match packet {
            ReceivedPacket::ConnAck { session_present, reason_code } => {
                if *reason_code != 0 {
                    return Err(ClientError::Failed);
                }
                if *session_present {
                    return Err(ClientError::Failed);
                }
                state.reset();
                state.connected = true;
                Ok(false)
            },
            _ => Err(ClientError::Protocol(ProtocolError::Invalid)),
        }
    } else {
        match packet {
            ReceivedPacket::Publish { .. } => Ok(true),
            ReceivedPacket::SubAck { packet_identifier, reason_code } => {
                if *packet_identifier != state.get_packet_identifier() {
                    return Err(ClientError::Invalid);
                }
                if *reason_code != 0 {
                    return Err(ClientError::Failed);
                }
                state.increment_packet_identifier();
                Ok(false)
            },
            ReceivedPacket::ConnAck { .. } => Err(ClientError::Invalid),
        }
    }
}

/// Folds a list of complete frames through decode and the state machine:
/// the final session state, the forwarded publications (topic and payload
/// bytes), and the first error if one stops the run. Frames after an error
/// are not dispatched.
pub open spec fn run_frames(st: SessionState, frames: Seq<Seq<u8>>) -> (
    SessionState,
    Seq<(Seq<u8>, Seq<u8>)>,
    Option<ClientError>,
)
    decreases frames.len(),
{
    if frames.len() == 0 {
        (st, seq![], None)
    } else {
        let fr = frames[0];
        match parse_frame(fr) {
            Err(e) => (st, seq![], Some(ClientError::Protocol(e))),
            Ok(pkt) => match handle_spec(st, pkt) {
                Err(e) => (st, seq![], Some(e)),
                Ok((st2, deliver)) => {
                    let rest = run_frames(st2, frames.drop_first());
                    let events = if deliver {
                        match pkt {
                            ReceivedPacket::Publish { topic, payload } => seq![
                                (
                                    fr.subrange(topic.start as int, topic.end as int),
                                    fr.subrange(payload.start as int, payload.end as int),
                                ),
                            ],
                            _ => seq![],
                        }
                    } else {
                        seq![]
                    };
                    (rest.0, events + rest.1, rest.2)
                },
            },
        }
    }
}

/// A decoded publish packet's ranges lie within its frame.
pub proof fn lemma_publish_ranges(b: Seq<u8>)
    requires
        b.len() <= usize::MAX,
        parse_frame(b) matches Ok(ReceivedPacket::Publish { .. }),
    ensures
        ({
            match parse_frame(b)->Ok_0 {
                ReceivedPacket::Publish { topic, payload } => {
                    &&& topic.start <= topic.end <= b.len()
                    &&& payload.start <= payload.end <= b.len()
                },
                _ => true,
            }
        }),
{
    crate::codec::lemma_rl_parse_bounds(b, 1);
    let k = crate::codec::rl_parse(b, 1)->Some_0.1;
    let s = 1 + k;
    let tl = 0x100 * (b[s] as int) + b[s + 1];
    crate::codec::lemma_rl_parse_bounds(b, s + 2 + tl);
}

/// Composition of the frame fold: an error-free run over `fs1` continues
/// through `fs2` from the state it reached; a failed run stops everything.
pub proof fn lemma_run_frames_append(st: SessionState, fs1: Seq<Seq<u8>>, fs2: Seq<Seq<u8>>)
    ensures
        ({
            let a = run_frames(st, fs1);
            let whole = run_frames(st, fs1 + fs2);
            if a.2 is Some {
                whole == a
            } else {
                let b = run_frames(a.0, fs2);
                whole == (b.0, a.1 + b.1, b.2)
            }
        }),
    decreases fs1.len(),
{
    if fs1.len() == 0 {
        assert(fs1 + fs2 =~= fs2);
        let b = run_frames(st, fs2);
        assert(Seq::<(Seq<u8>, Seq<u8>)>::empty() + b.1 =~= b.1);
    } else {
        let fr = fs1[0];
        assert((fs1 + fs2)[0] == fr);
        assert((fs1 + fs2).drop_first() =~= fs1.drop_first() + fs2);
        match parse_frame(fr) {
            Err(_) => {},
            Ok(pkt) => match handle_spec(st, pkt) {
                Err(_) => {},
                Ok((st2, deliver)) => {
                    lemma_run_frames_append(st2, fs1.drop_first(), fs2);
                    let ra = run_frames(st2, fs1.drop_first());
                    if ra.2 is None {
                        let b = run_frames(ra.0, fs2);
                        assert(run_frames(st, fs1 + fs2).1 =~= run_frames(st, fs1).1 + b.1);
                    }
                },
            },
        }
    }
}

/// When the first completed frame of the reader's buffer fails to decode or
/// to dispatch, the fold over the whole stream's frames fails as well: the
/// frames dispatched so far ran clean, and this frame comes next.
proof fn lemma_stream_run_fails(
    stream: Seq<u8>,
    consumed: int,
    done: Seq<Seq<u8>>,
    orig: SessionState,
    cur: SessionState,
    events: Seq<(Seq<u8>, Seq<u8>)>,
    buffered: Seq<u8>,
    err: ClientError,
)
    requires
        0 <= consumed <= stream.len(),
        frames_of(stream.take(consumed)) == done + frames_of(buffered),
        residue(stream.take(consumed)) == residue(buffered),
        run_frames(orig, done) == (cur, events, None::<ClientError>),
        frame_ready(buffered),
        ({
            let f = buffered.take(frame_size(buffered)->Some_0);
            match parse_frame(f) {
                Err(pe) => err == ClientError::Protocol(pe),
                Ok(pkt) => handle_spec(cur, pkt) == Err::<(SessionState, bool), ClientError>(err),
            }
        }),
    ensures
        run_frames(orig, frames_of(stream)).2 == Some(err),
{
    lemma_frame_size_bounds(buffered);
    let f = buffered.take(frame_size(buffered)->Some_0);
    lemma_feed_split(stream.take(consumed), stream.skip(consumed));
    assert(stream.take(consumed) + stream.skip(consumed) =~= stream);
    let rest = frames_of(residue(stream.take(consumed)) + stream.skip(consumed));
    let fs2 = frames_of(buffered) + rest;
    assert((done + frames_of(buffered)) + rest =~= done + fs2);
    assert(frames_of(stream) == done + fs2);
    lemma_run_frames_append(orig, done, fs2);
    assert(frames_of(buffered)[0] == f);
    assert(fs2[0] == f);
    let b = run_frames(cur, fs2);
    assert(b.2 is Some);
    assert(run_frames(orig, frames_of(stream)).2 == b.2);
}

/// Copies the ranged bytes out of a frame.
fn copy_range(bytes: &[u8], r: ByteRange) -> (v: Vec<u8>)
    requires
        r.start <= r.end,
        r.end <= bytes@.len(),
    ensures
        v@ == bytes@.subrange(r.start as int, r.end as int),
{
    let mut v: Vec<u8> = Vec::new();
    let mut i: usize = r.start;
    proof {
        assert(v@ =~= bytes@.subrange(r.start as int, r.start as int));
    }
    while i < r.end
        invariant
            r.start <= i <= r.end,
            r.end <= bytes@.len(),
            v@ == bytes@.subrange(r.start as int, i as int),
        decreases r.end - i,
    {
        v.push(bytes[i]);
        proof {
            assert(v@ =~= bytes@.subrange(r.start as int, i + 1));
        }
        i = i + 1;
    }
    v
}

/// The protocol engine: session state, packet reader and transmit buffer.
/// The caller owns the transport; the engine owns every decision.
pub struct ClientCore {
    pub state: SessionState,
    pub reader: PacketReader,
    pub transmit_buffer: Vec<u8>,
}

impl ClientCore {
    /// Structural well-formedness of the engine's parts.
    pub open spec fn sound(self) -> bool {
        &&& self.state.wf()
        &&& self.reader.wf()
    }

    /// The reader holds no completed frame: every processing cycle drains
    /// them all before it returns successfully.
    pub open spec fn drained(self) -> bool {
        !frame_ready(self.reader.buffered())
    }

    /// Builds an engine with fixed-capacity accumulation and transmit
    /// buffers, in the unconnected state.
    pub fn new(client_id: Vec<u8>, keep_alive_interval: u16, buffer_capacity: usize) -> (r:
        ClientCore)
        ensures
            r.sound(),
            r.drained(),
            r.state.client_id@ == client_id@,
            r.state.keep_alive_interval == keep_alive_interval,
            !r.state.connected,
            r.state.packet_identifier == 1,
            r.reader.capacity() == buffer_capacity,
            r.reader.buffered() == Seq::<u8>::empty(),
            r.transmit_buffer@.len() == buffer_capacity,
    {
        ClientCore {
            state: SessionState::new(client_id, keep_alive_interval),
            reader: PacketReader::new(buffer_capacity),
            transmit_buffer: vec![0u8; buffer_capacity],
        }
    }

    /// Begins one fresh handshake after the caller observed a transport
    /// disconnect and replaced its socket: resets the session and the reader
    /// unconditionally, then encodes exactly one connect frame into the
    /// transmit buffer for the caller to send.
    pub fn prepare_reconnect(&mut self) -> (r: Result<usize, ProtocolError>)
        requires
            old(self).sound(),
        ensures
            final (self).sound(),
            final (self).drained(),
            final (self).state.identity() == old(self).state.identity(),
            !final (self).state.connected,
            final (self).state.packet_identifier == 1,
            final (self).reader.buffered() == Seq::<u8>::empty(),
            final (self).reader.capacity() == old(self).reader.capacity(),
            final (self).transmit_buffer@.len() == old(self).transmit_buffer@.len(),
            match r {
                Ok(n) => {
                    &&& connect_fits(old(self).state.client_id@, old(self).transmit_buffer@.len() as int)
                    &&& n == connect_frame(
                        old(self).state.client_id@,
                        old(self).state.keep_alive_interval as int,
                    ).len()
                    &&& final (self).transmit_buffer@.subrange(0, n as int) == connect_frame(
                        old(self).state.client_id@,
                        old(self).state.keep_alive_interval as int,
                    )
                },
                Err(e) => {
                    &&& e == ProtocolError::DataSize
                    &&& !connect_fits(old(self).state.client_id@, old(self).transmit_buffer@.len() as int)
                },
            },
    {
        self.state.reset();
        self.reader.reset();
        let keep_alive = self.state.keep_alive_interval;
        encode_connect(&mut self.transmit_buffer, self.state.client_id.as_slice(), keep_alive)
    }

    /// Encodes one publish frame into the transmit buffer for the caller to
    /// send; session and reader state are untouched — delivery is
    /// fire-and-forget, so nothing is recorded about it.
    pub fn prepare_publish(&mut self, topic: &[u8], payload: &[u8]) -> (r: Result<
        usize,
        ProtocolError,
    >)
        requires
            old(self).sound(),
        ensures
            final (self).sound(),
            final (self).state == old(self).state,
            final (self).reader == old(self).reader,
            final (self).transmit_buffer@.len() == old(self).transmit_buffer@.len(),
            match r {
                Ok(n) => {
                    &&& publish_fits(topic@, payload@, old(self).transmit_buffer@.len() as int)
                    &&& n == publish_frame(topic@, payload@).len()
                    &&& final (self).transmit_buffer@.subrange(0, n as int) == publish_frame(
                        topic@,
                        payload@,
                    )
                },
                Err(e) => {
                    &&& e == ProtocolError::DataSize
                    &&& !publish_fits(topic@, payload@, old(self).transmit_buffer@.len() as int)
                },
            },
    {
        encode_publish(&mut self.transmit_buffer, topic, payload)
    }

    /// The first `n` encoded bytes of the transmit buffer, for the caller to
    /// write to its socket.
    pub fn transmit_slice(&self, n: usize) -> (r: &[u8])
        requires
            n <= self.transmit_buffer@.len(),
        ensures
            r@ == self.transmit_buffer@.take(n as int),
    {
        let r = &self.transmit_buffer.as_slice()[0..n];
        proof {
            assert(r@ =~= self.transmit_buffer@.take(n as int));
        }
        r
    }

    /// Feeds one transport read to the reader and drains it: append the
    /// bytes, and while a frame is available, decode it, dispatch it through
    /// the state machine, and pop it — so one read can deliver several frames.
    /// [`run_frames`] over the completed frames of the buffered stream says
    /// exactly what a successful call returns and leaves behind. On an error
    /// the caller abandons the connection and reconnects, so beyond soundness
    /// nothing is promised of the state at the failure.
    #[verifier::rlimit(100)]
    pub fn process_data(&mut self, data: &[u8]) -> (r: Result<Vec<Publication>, ClientError>)
        requires
            old(self).sound(),
            old(self).drained(),
        ensures
            final (self).sound(),
            final (self).reader.capacity() == old(self).reader.capacity(),
            final (self).transmit_buffer@ == old(self).transmit_buffer@,
            final (self).state.identity() == old(self).state.identity(),
            match r {
                Ok(pubs) => ({
                    let stream = old(self).reader.buffered() + data@;
                    let folded = run_frames(old(self).state, frames_of(stream));
                    &&& folded.2 is None
                    &&& final (self).state == folded.0
                    &&& pubs@.map_values(|p: Publication| publication_view(p)) == folded.1
                    &&& final (self).reader.buffered() == residue(stream)
                    &&& final (self).drained()
                }),
                Err(_) => true,
            },
            // success is owed whenever every frame of the stream dispatches
            // cleanly and no partial frame ever outgrows the fixed buffer
            ({
                let stream = old(self).reader.buffered() + data@;
                (run_frames(old(self).state, frames_of(stream)).2 is None && (forall|i: int|
                    0 <= i < stream.len() ==> residue(#[trigger] stream.take(i)).len() < old(
                        self,
                    ).reader.capacity())) ==> r is Ok
            }),
            // each failure names its cause: a frame too large for the fixed
            // buffer surfaces as a disconnect, anything else is the first
            // error of the fold over the stream's frames
            ({
                let stream = old(self).reader.buffered() + data@;
                match r {
                    Ok(_) => true,
                    Err(e) => if e == ClientError::Disconnected {
                        exists|i: int|
                            0 <= i < stream.len() && residue(#[trigger] stream.take(i)).len()
                                == old(self).reader.capacity()
                    } else {
                        run_frames(old(self).state, frames_of(stream)).2 == Some(e)
                    },
                }
            }),
    {
        let ghost stream = old(self).reader.buffered() + data@;
        let ghost base = old(self).reader.buffered().len() as int;
        let mut pubs: Vec<Publication> = Vec::new();
        let mut processed: usize = 0;
        proof {
            assert(stream.take(base + 0) =~= old(self).reader.buffered());
        }
        while processed < data.len()
            invariant
                processed <= data@.len(),
                stream == old(self).reader.buffered() + data@,
                base == old(self).reader.buffered().len(),
                stream.len() == base + data@.len(),
                self.sound(),
                !frame_ready(self.reader.buffered()),
                self.reader.capacity() == old(self).reader.capacity(),
                self.transmit_buffer@ == old(self).transmit_buffer@,
                self.state.identity() == old(self).state.identity(),
                self.reader.buffered() == residue(stream.take(base + processed)),
                run_frames(old(self).state, frames_of(stream.take(base + processed))) == (
                    self.state,
                    pubs@.map_values(|p: Publication| publication_view(p)),
                    None::<ClientError>,
                ),
            decreases data@.len() - processed,
        {
            let chunk = &data[processed..data.len()];
            let ghost consumed0 = base + processed;
            let n = match self.reader.append(chunk) {
                Ok(m) => m,
                Err(_) => {
                    proof {
                        assert(residue(stream.take(consumed0)).len() == old(
                            self,
                        ).reader.capacity());
                        assert(consumed0 < stream.len());
                    }
                    return Err(ClientError::Disconnected);
                },
            };
            assert(n >= 1);
            let ghost consumed = consumed0 + n;
            let ghost handled = frames_of(stream.take(consumed0));
            proof {
                assert(stream.take(consumed) =~= stream.take(consumed0) + chunk@.take(n as int));
                lemma_feed_split(stream.take(consumed0), chunk@.take(n as int));
                assert(self.reader.buffered() == residue(stream.take(consumed0)) + chunk@.take(
                    n as int,
                ));
                assert(frames_of(stream.take(consumed)) == handled + frames_of(
                    self.reader.buffered(),
                ));
                assert(residue(stream.take(consumed)) == residue(self.reader.buffered()));
            }
            let ghost mut done = handled;
            while self.reader.frame_available()
                invariant
                    self.sound(),
                    stream == old(self).reader.buffered() + data@,
                    0 <= consumed <= stream.len(),
                    self.reader.capacity() == old(self).reader.capacity(),
                    self.transmit_buffer@ == old(self).transmit_buffer@,
                    self.state.identity() == old(self).state.identity(),
                    frames_of(stream.take(consumed)) == done + frames_of(self.reader.buffered()),
                    residue(stream.take(consumed)) == residue(self.reader.buffered()),
                    run_frames(old(self).state, done) == (
                        self.state,
                        pubs@.map_values(|p: Publication| publication_view(p)),
                        None::<ClientError>,
                    ),
                decreases self.reader.buffered().len(),
            {
                let ghost buffered0 = self.reader.buffered();
                let ghost fsize = frame_size(buffered0)->Some_0;
                proof {
                    lemma_frame_size_bounds(buffered0);
                }
                let fr = self.reader.frame();
                let ghost fseq = fr@;
                let pkt = match decode_frame(fr) {
                    Ok(p) => p,
                    Err(e) => {
                        proof {
                            lemma_stream_run_fails(
                                stream,
                                consumed,
                                done,
                                old(self).state,
                                self.state,
                                pubs@.map_values(|q: Publication| publication_view(q)),
                                self.reader.buffered(),
                                ClientError::Protocol(e),
                            );
                        }
                        return Err(ClientError::Protocol(e));
                    },
                };
                let ghost state0 = self.state;
                let deliver = match handle_packet(&mut self.state, &pkt) {
                    Ok(d) => d,
                    Err(e) => {
                        proof {
                            lemma_stream_run_fails(
                                stream,
                                consumed,
                                done,
                                old(self).state,
                                state0,
                                pubs@.map_values(|q: Publication| publication_view(q)),
                                buffered0,
                                e,
                            );
                        }
                        return Err(e);
                    },
                };
                if deliver {
                    match pkt {
                        ReceivedPacket::Publish { topic, payload } => {
                            proof {
                                lemma_publish_ranges(fseq);
                            }
                            let fr2 = self.reader.frame();
                            let t = copy_range(fr2, topic);
                            let p = copy_range(fr2, payload);
                            let ghost pubs0 = pubs@;
                            pubs.push(Publication { topic: t, payload: p });
                            proof {
                                assert(pubs@.map_values(|q: Publication| publication_view(q)) =~= (
                                pubs0.map_values(|q: Publication| publication_view(q)).push(
                                    (
                                        fseq.subrange(topic.start as int, topic.end as int),
                                        fseq.subrange(payload.start as int, payload.end as int),
                                    ),
                                )));
                            }
                        },
                        _ => {
                            proof {
                                assert(false);
                            }
                        },
                    }
                }
                proof {
                    reveal_with_fuel(run_frames, 3);
                    lemma_run_frames_append(old(self).state, done, seq![fseq]);
                    assert(seq![fseq].drop_first() =~= Seq::<Seq<u8>>::empty());
                    let stepped = run_frames(state0, seq![fseq]);
                    assert(stepped.2 is None);
                    assert(run_frames(old(self).state, done + seq![fseq]) == (
                        stepped.0,
                        run_frames(old(self).state, done).1 + stepped.1,
                        None::<ClientError>,
                    ));
                    assert(pubs@.map_values(|q: Publication| publication_view(q)) =~= run_frames(
                        old(self).state,
                        done,
                    ).1 + stepped.1);
                    done = done + seq![fseq];
                }
                self.reader.pop_frame();
                proof {
                    assert(fseq == buffered0.take(fsize));
                    assert(frames_of(buffered0) == seq![fseq] + frames_of(self.reader.buffered()));
                    assert(frames_of(stream.take(consumed)) =~= done + frames_of(
                        self.reader.buffered(),
                    ));
                    assert(residue(buffered0) == residue(self.reader.buffered()));
                }
            }
            proof {
                assert(frames_of(self.reader.buffered()) =~= Seq::<Seq<u8>>::empty());
                assert(done + Seq::<Seq<u8>>::empty() =~= done);
                assert(frames_of(stream.take(consumed)) == done);
                assert(residue(self.reader.buffered()) == self.reader.buffered());
            }
            processed = processed + n;
        }
        proof {
            assert(stream.take(base + processed) =~= stream);
        }
        Ok(pubs)
    }
}

} // verus!

