//! The bytes a connection has read but not yet decoded, and how whole frames
//! are taken from them.

use vstd::prelude::*;
use crate::frame::{decode_at, push_bytes, spec_decode, Frame};

verus! {

/// What the buffer holds at its front.
pub enum FrameRead {
    /// A whole frame, now taken from the buffer.
    Frame(Frame),
    /// Only part of a frame: read more bytes and try again.
    NeedMore,
    /// Bytes on which decoding panics (see [`spec_decode`]).
    Malformed,
}

/// Bytes read from a connection; those before `cursor` are already decoded.
pub struct FrameBuffer {
    buffer: Vec<u8>,
    cursor: usize,
}

impl FrameBuffer {
    /// The bytes read but not yet decoded.
    pub closed spec fn pending(&self) -> Seq<u8> {
        self.buffer@.skip(self.cursor as int)
    }

    /// The cursor lies inside the buffer, whose length a slice can have.
    pub closed spec fn wf(&self) -> bool {
        self.cursor <= self.buffer@.len() <= isize::MAX
    }

    /// How many bytes the buffer holds in all, decoded or not.
    pub closed spec fn held(&self) -> nat {
        self.buffer@.len()
    }

    /// An empty buffer.
    pub fn new() -> (r: Self)
        ensures
            r.wf(),
            r.pending() == Seq::<u8>::empty(),
            r.held() == 0,
    {
        let r = FrameBuffer { buffer: Vec::new(), cursor: 0 };
        assert(r.pending() =~= Seq::<u8>::empty());
        r
    }

    /// How many bytes the buffer holds in all, decoded or not.
    pub fn len(&self) -> (r: usize)
        ensures
            r == self.held(),
    {
        self.buffer.len()
    }

    /// Appends bytes just read from the connection.
    pub fn extend(&mut self, bytes: &[u8])
        requires
            old(self).wf(),
            old(self).held() + bytes@.len() <= isize::MAX,
        ensures
            final(self).wf(),
            final(self).pending() == old(self).pending() + bytes@,
            final(self).held() == old(self).held() + bytes@.len(),
    {
        push_bytes(&mut self.buffer, bytes);
        assert(self.pending() =~= old(self).pending() + bytes@);
    }

    /// Takes the frame at the front of the pending bytes, if it is whole.
    /// Once more than half the buffer has been decoded, the decoded bytes
    /// are dropped.
    pub fn next_frame(&mut self) -> (r: FrameRead)
        requires
            old(self).wf(),
        ensures
            final(self).wf(),
            final(self).held() <= old(self).held(),
            match spec_decode(old(self).pending()) {
                None => r is Malformed && final(self).pending() == old(self).pending(),
                Some((v, n)) => if v is Incomplete {
                    r is NeedMore && final(self).pending() == old(self).pending()
                } else {
                    r matches FrameRead::Frame(f) && f@ == v && final(self).pending()
                        == old(self).pending().skip(n)
                },
            },
    {
        match decode_at(self.buffer.as_slice(), self.cursor) {
            None => FrameRead::Malformed,
            Some((frame, consumed)) => {
                if let Frame::Incomplete = frame {
                    return FrameRead::NeedMore;
                }
                let ghost before = self.pending();
                self.cursor = self.cursor + consumed;
                assert(self.pending() =~= before.skip(consumed as int));
                if self.cursor > self.buffer.len() / 2 {
                    let ghost p = self.pending();
                    let rest = self.buffer.split_off(self.cursor);
                    self.buffer = rest;
                    self.cursor = 0;
                    assert(self.pending() =~= p);
                }
                FrameRead::Frame(frame)
            },
        }
    }
}

} // verus!
