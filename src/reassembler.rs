//! Receive side: frames out of a byte stream delivered in pieces of any size.
use crate::codec::{decode, views, ReassemblyBuffer};
use vstd::prelude::*;

verus! {

/// Reassembles frames for one transport connection.
pub struct Reassembler {
    buffer: ReassemblyBuffer,
}

impl View for Reassembler {
    type V = (Option<u32>, Seq<u8>);

    /// The decoding state: the length pending, if any, and the bytes held.
    closed spec fn view(&self) -> (Option<u32>, Seq<u8>) {
        self.buffer@
    }
}

impl Reassembler {
    /// The state is settled (see [`crate::codec::settled`]).
    pub closed spec fn wf(&self) -> bool {
        self.buffer.wf()
    }

    /// A reassembler with nothing buffered.
    pub fn new() -> (r: Self)
        ensures
            r@ == (None::<u32>, Seq::<u8>::empty()),
            r.wf(),
    {
        Reassembler { buffer: ReassemblyBuffer::new() }
    }

    /// Number of bytes held for a frame not yet complete.
    pub fn buffered(&self) -> (r: usize)
        ensures
            r == self@.1.len(),
    {
        self.buffer.buffered()
    }

    /// Drops any partial frame, as when the connection is set up anew.
    pub fn reset(&mut self)
        ensures
            final(self)@ == (None::<u32>, Seq::<u8>::empty()),
            final(self).wf(),
    {
        self.buffer = ReassemblyBuffer::new();
    }

    /// Takes in one delivered chunk and returns the frames it completes, in
    /// order.
    pub fn process(&mut self, incoming: &[u8]) -> (frames: Vec<Vec<u8>>)
        requires
            old(self)@.1.len() + incoming@.len() <= usize::MAX,
        ensures
            ({
                let d = decode(old(self)@.0, old(self)@.1 + incoming@);
                &&& views(frames@) == d.0
                &&& final(self)@ == (d.1, d.2)
            }),
            final(self).wf(),
    {
        self.buffer.feed(incoming)
    }
}

} // verus!
