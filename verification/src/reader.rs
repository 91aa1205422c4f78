//! Packet reader: a stateful incremental framer. Transport bytes accumulate
//! in a fixed-capacity buffer; after every append the fixed header and
//! remaining-length prefix are reparsed from the buffer start, and a frame is
//! available exactly when the buffer holds all the bytes the prefix declares.
//! Popping a frame shifts any trailing bytes to the front, so one read can
//! deliver several frames and a frame split across reads is reassembled.

use vstd::prelude::*;

use crate::codec::{frame_ready, frame_size, lemma_frame_size_bounds, lemma_frame_size_extend,
    rl_decode};
use crate::errors::ProtocolError;

verus! {

/// The byte stream split greedily into the completed frames at its front.
pub open spec fn frames_of(b: Seq<u8>) -> Seq<Seq<u8>>
    decreases b.len(),
    via frames_of_dec
{
    if frame_ready(b) {
        let n = frame_size(b)->Some_0;
        seq![b.take(n)] + frames_of(b.skip(n))
    } else {
        seq![]
    }
}

#[via_fn]
proof fn frames_of_dec(b: Seq<u8>) {
    if frame_ready(b) {
        lemma_frame_size_bounds(b);
    }
}

/// What stays buffered once every completed frame at the front is consumed.
pub open spec fn residue(b: Seq<u8>) -> Seq<u8>
    decreases b.len(),
    via residue_dec
{
    if frame_ready(b) {
        residue(b.skip(frame_size(b)->Some_0))
    } else {
        b
    }
}

#[via_fn]
proof fn residue_dec(b: Seq<u8>) {
    if frame_ready(b) {
        lemma_frame_size_bounds(b);
    }
}

/// The residue never holds a completed frame.
pub proof fn lemma_residue_not_ready(b: Seq<u8>)
    ensures
        !frame_ready(residue(b)),
    decreases b.len(),
{
    if frame_ready(b) {
        lemma_frame_size_bounds(b);
        lemma_residue_not_ready(b.skip(frame_size(b)->Some_0));
    }
}

/// Feeding `b1` and then `b2` completes the same frames, in the same order,
/// as feeding `b1 + b2` at once: the frames of `b1` come first, and the bytes
/// `b1` left behind join the front of `b2`.
pub proof fn lemma_feed_split(b1: Seq<u8>, b2: Seq<u8>)
    ensures
        frames_of(b1 + b2) == frames_of(b1) + frames_of(residue(b1) + b2),
        residue(b1 + b2) == residue(residue(b1) + b2),
    decreases b1.len(),
{
    if frame_ready(b1) {
        lemma_frame_size_bounds(b1);
        let n = frame_size(b1)->Some_0;
        lemma_frame_size_extend(b1, b2);
        assert(frame_ready(b1 + b2));
        assert((b1 + b2).take(n) =~= b1.take(n));
        assert((b1 + b2).skip(n) =~= b1.skip(n) + b2);
        lemma_feed_split(b1.skip(n), b2);
        assert(frames_of(b1 + b2) =~= frames_of(b1) + frames_of(residue(b1) + b2));
    } else {
        assert(residue(b1) + b2 =~= b1 + b2);
        assert(frames_of(b1 + b2) =~= frames_of(b1) + frames_of(residue(b1) + b2));
    }
}

/// One contiguous byte sequence, chunk by chunk.
pub open spec fn concat_chunks(chunks: Seq<Seq<u8>>) -> Seq<u8>
    decreases chunks.len(),
{
    if chunks.len() == 0 {
        Seq::empty()
    } else {
        chunks[0] + concat_chunks(chunks.drop_first())
    }
}

/// The ordered frames completed when the chunks are fed one by one into a
/// reader holding `r`, draining completed frames after every chunk.
pub open spec fn fed_frames(r: Seq<u8>, chunks: Seq<Seq<u8>>) -> Seq<Seq<u8>>
    decreases chunks.len(),
{
    if chunks.len() == 0 {
        seq![]
    } else {
        frames_of(r + chunks[0]) + fed_frames(residue(r + chunks[0]), chunks.drop_first())
    }
}

/// Chunking invariance from any drained reader state: feeding the chunks one
/// by one completes exactly the frames of the contiguous sequence.
pub proof fn lemma_chunking_invariance(r: Seq<u8>, chunks: Seq<Seq<u8>>)
    requires
        !frame_ready(r),
    ensures
        fed_frames(r, chunks) == frames_of(r + concat_chunks(chunks)),
    decreases chunks.len(),
{
    if chunks.len() == 0 {
        assert(r + concat_chunks(chunks) =~= r);
        assert(fed_frames(r, chunks) =~= frames_of(r));
    } else {
        let c = chunks[0];
        let rest = chunks.drop_first();
        lemma_residue_not_ready(r + c);
        lemma_chunking_invariance(residue(r + c), rest);
        lemma_feed_split(r + c, concat_chunks(rest));
        assert((r + c) + concat_chunks(rest) =~= r + concat_chunks(chunks));
        assert(fed_frames(r, chunks) =~= frames_of(r + concat_chunks(chunks)));
    }
}

/// For any byte sequence fed to the reader in arbitrary chunk sizes — one
/// byte at a time included — the ordered sequence of completed frames equals
/// the one obtained by feeding the same bytes as one contiguous block.
pub proof fn lemma_reader_chunking_invariance(chunks: Seq<Seq<u8>>)
    ensures
        fed_frames(Seq::empty(), chunks) == frames_of(concat_chunks(chunks)),
{
    lemma_chunking_invariance(Seq::empty(), chunks);
    assert(Seq::<u8>::empty() + concat_chunks(chunks) =~= concat_chunks(chunks));
}

/// Fixed-capacity accumulation buffer with a write cursor. Created once,
/// reset on reconnect, mutated by append and by frame consumption.
pub struct PacketReader {
    buffer: Vec<u8>,
    read_bytes: usize,
}

impl PacketReader {
    /// Fixed capacity of the accumulation buffer, chosen at construction.
    pub closed spec fn capacity(self) -> int {
        self.buffer@.len() as int
    }

    /// The bytes accumulated and not yet popped.
    pub closed spec fn buffered(self) -> Seq<u8> {
        self.buffer@.take(self.read_bytes as int)
    }

    /// The write cursor never exceeds the capacity.
    pub closed spec fn wf(self) -> bool {
        self.read_bytes <= self.buffer@.len()
    }

    pub fn new(capacity: usize) -> (r: PacketReader)
        ensures
            r.wf(),
            r.capacity() == capacity,
            r.buffered() == Seq::<u8>::empty(),
    {
        let r = PacketReader { buffer: vec![0u8; capacity], read_bytes: 0 };
        proof {
            assert(r.buffered() =~= Seq::<u8>::empty());
        }
        r
    }

    /// Appends as many of the supplied bytes as fit and returns how many were
    /// consumed; the caller resupplies the remainder on its next cycle. Fails
    /// with `Bounds` exactly when zero bytes fit and no completed frame can be
    /// popped to make room: the declared frame exceeds the fixed capacity, a
    /// protocol violation. On failure the buffered bytes are left untouched.
    pub fn append(&mut self, chunk: &[u8]) -> (r: Result<usize, ProtocolError>)
        requires
            old(self).wf(),
        ensures
            final (self).wf(),
            final (self).capacity() == old(self).capacity(),
            match r {
                Ok(n) => {
                    &&& n == if chunk@.len() <= old(self).capacity() - old(self).buffered().len() {
                        chunk@.len() as int
                    } else {
                        old(self).capacity() - old(self).buffered().len()
                    }
                    &&& final (self).buffered() == old(self).buffered() + chunk@.take(n as int)
                },
                Err(e) => {
                    &&& e == ProtocolError::Bounds
                    &&& *final (self) == *old(self)
                },
            },
            (r is Err) <==> (chunk@.len() > 0 && old(self).buffered().len() == old(
                self,
            ).capacity() && !frame_ready(old(self).buffered())),
    {
        let avail = self.buffer.len() - self.read_bytes;
        if chunk.len() > 0 && avail == 0 && !self.frame_available() {
            return Err(ProtocolError::Bounds);
        }
        let n = if chunk.len() <= avail {
            chunk.len()
        } else {
            avail
        };
        let mut i: usize = 0;
        while i < n
            invariant
                i <= n,
                n <= chunk@.len(),
                old(self).read_bytes + n <= usize::MAX,
                old(self).read_bytes + n <= self.buffer@.len(),
                self.read_bytes == old(self).read_bytes,
                self.buffer@.len() == old(self).buffer@.len(),
                forall|j: int| 0 <= j < i ==> self.buffer@[old(self).read_bytes + j] == chunk@[j],
                forall|j: int|
                    0 <= j < self.buffer@.len() && !(old(self).read_bytes <= j < old(
                        self,
                    ).read_bytes + i) ==> self.buffer@[j] == old(self).buffer@[j],
            decreases n - i,
        {
            self.buffer[self.read_bytes + i] = chunk[i];
            i = i + 1;
        }
        self.read_bytes = self.read_bytes + n;
        proof {
            assert(self.buffered() =~= old(self).buffered() + chunk@.take(n as int));
        }
        Ok(n)
    }

    /// Count of bytes currently buffered.
    pub fn buffered_len(&self) -> (n: usize)
        requires
            self.wf(),
        ensures
            n == self.buffered().len(),
    {
        self.read_bytes
    }

    /// True exactly when the remaining-length prefix is fully present and the
    /// buffer holds at least the whole frame it declares.
    pub fn frame_available(&self) -> (r: bool)
        requires
            self.wf(),
        ensures
            r == frame_ready(self.buffered()),
    {
        if self.read_bytes < 2 {
            return false;
        }
        match rl_decode(self.buffer.as_slice(), 1, self.read_bytes) {
            Some((v, k)) => {
                let total = 1 + k + v as usize;
                total <= self.read_bytes
            },
            None => false,
        }
    }

    /// Declared size of the completed frame at the buffer start.
    pub fn frame_length(&self) -> (n: usize)
        requires
            self.wf(),
            frame_ready(self.buffered()),
        ensures
            n == frame_size(self.buffered())->Some_0,
            2 <= n <= self.buffered().len(),
    {
        proof {
            lemma_frame_size_bounds(self.buffered());
        }
        match rl_decode(self.buffer.as_slice(), 1, self.read_bytes) {
            Some((v, k)) => 1 + k + v as usize,
            None => {
                proof {
                    assert(false);
                }
                0
            },
        }
    }

    /// The completed frame at the buffer start, as a view into the buffer;
    /// valid only until the next append, pop or reset.
    pub fn frame(&self) -> (r: &[u8])
        requires
            self.wf(),
            frame_ready(self.buffered()),
        ensures
            r@ == self.buffered().take(frame_size(self.buffered())->Some_0),
    {
        let n = self.frame_length();
        let r = &self.buffer.as_slice()[0..n];
        proof {
            assert(r@ =~= self.buffered().take(n as int));
        }
        r
    }

    /// Discards the completed frame at the buffer start and shifts trailing
    /// bytes — the start of a frame that arrived in the same read — to offset
    /// zero, so the next append/check cycle starts fresh.
    pub fn pop_frame(&mut self)
        requires
            old(self).wf(),
            frame_ready(old(self).buffered()),
        ensures
            final (self).wf(),
            final (self).capacity() == old(self).capacity(),
            final (self).buffered() == old(self).buffered().skip(
                frame_size(old(self).buffered())->Some_0,
            ),
    {
        let n = self.frame_length();
        let rem = self.read_bytes - n;
        let mut i: usize = 0;
        while i < rem
            invariant
                i <= rem,
                rem == self.read_bytes - n,
                2 <= n,
                n + rem == self.read_bytes,
                self.read_bytes == old(self).read_bytes,
                self.read_bytes <= self.buffer@.len(),
                self.buffer@.len() == old(self).buffer@.len(),
                forall|j: int| 0 <= j < i ==> self.buffer@[j] == old(self).buffer@[n + j],
                forall|j: int| i <= j < self.buffer@.len() ==> self.buffer@[j] == old(
                    self,
                ).buffer@[j],
            decreases rem - i,
        {
            let b = self.buffer[n + i];
            self.buffer[i] = b;
            i = i + 1;
        }
        self.read_bytes = rem;
        proof {
            assert(self.buffered() =~= old(self).buffered().skip(n as int));
        }
    }

    /// Discards all buffered bytes and boundary state unconditionally; used
    /// on reconnection, where any partial frame is unrecoverable.
    pub fn reset(&mut self)
        ensures
            final (self).wf(),
            final (self).capacity() == old(self).capacity(),
            final (self).buffered() == Seq::<u8>::empty(),
    {
        self.read_bytes = 0;
        proof {
            assert(self.buffered() =~= Seq::<u8>::empty());
        }
    }
}

} // verus!
