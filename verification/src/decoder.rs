//! The incremental decoder a connection drives: a growable read buffer from
//! which complete frames are extracted one at a time.
//!
//! The connection's read loop is: try a frame; on `NeedMore`, read from the
//! stream and `feed` what arrived; a read of zero bytes means the peer
//! closed, which is a clean shutdown exactly when the buffer `is_empty`.

use vstd::prelude::*;

use crate::decode::{spec_decode, DecodeError, DecodeOutcome, SpecOutcome};
use crate::frame::Frame;
use vstd::slice::{slice_subrange, slice_to_vec};

verus! {

/// One connection's read buffer and frame extractor.
pub struct FrameDecoder {
    buffer: Vec<u8>,
}

impl View for FrameDecoder {
    type V = Seq<u8>;

    closed spec fn view(&self) -> Seq<u8> {
        self.buffer@
    }
}

/// What one extraction attempt yields.
pub enum ReadStep {
    /// A complete frame, removed from the buffer.
    Frame(Frame),
    /// The buffer holds only a prefix of a frame; feed more bytes.
    NeedMore,
    /// The buffered bytes can never grow into a frame; the connection is
    /// beyond recovery.
    Corrupt(DecodeError),
}

impl FrameDecoder {
    /// An empty decoder.
    pub fn new() -> (d: FrameDecoder)
        ensures
            d@ == Seq::<u8>::empty(),
    {
        FrameDecoder { buffer: Vec::new() }
    }

    /// Appends bytes read from the stream to the buffer.
    pub fn feed(&mut self, chunk: &[u8])
        ensures
            final(self)@ == old(self)@ + chunk@,
    {
        self.buffer.extend_from_slice(chunk);
    }

    /// Whether the buffer holds no bytes; a peer that closes now closed
    /// cleanly, one that closes otherwise stopped mid-frame.
    pub fn is_empty(&self) -> (r: bool)
        ensures
            r == (self@.len() == 0),
    {
        self.buffer.is_empty()
    }

    /// How many bytes are buffered.
    pub fn buffered(&self) -> (n: usize)
        ensures
            n == self@.len(),
    {
        self.buffer.len()
    }

    /// Tries to extract one frame.  Exactly the bytes of a ready frame are
    /// removed; on `NeedMore` and `Corrupt` the buffer is untouched, so a
    /// partial frame is simply retried after the next `feed`.
    pub fn try_frame(&mut self) -> (r: ReadStep)
        ensures
            match spec_decode(old(self)@) {
                SpecOutcome::Ready(fm, c) => (r matches ReadStep::Frame(f) && f@ == fm
                    && crate::frame::frame_wf(fm)) && final(self)@ == old(self)@.skip(c),
                SpecOutcome::Incomplete => (r is NeedMore) && final(self)@ == old(self)@,
                SpecOutcome::Malformed(e) => (r matches ReadStep::Corrupt(e2) && e2 == e)
                    && final(self)@ == old(self)@,
            },
    {
        match Frame::decode(&self.buffer) {
            DecodeOutcome::Ready(f, c) => {
                proof {
                    crate::decode::lemma_decode_consumed(self.buffer@);
                    crate::decode::lemma_decode_wf(self.buffer@);
                }
                let rest = slice_to_vec(slice_subrange(self.buffer.as_slice(), c,
                    self.buffer.len()));
                proof {
                    assert(rest@ =~= self.buffer@.skip(c as int));
                }
                self.buffer = rest;
                ReadStep::Frame(f)
            },
            DecodeOutcome::Incomplete => ReadStep::NeedMore,
            DecodeOutcome::Malformed(e) => ReadStep::Corrupt(e),
        }
    }
}

} // verus!
