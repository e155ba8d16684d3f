//! Send side: paces frames by their media timestamps and cuts them into
//! transport-sized chunks.
use crate::codec::{encode, split, wire, MAX_PAYLOAD};
use crate::pacing::{pacing_step, PacingClock};
use bytes::Bytes;
use vstd::prelude::*;

verus! {

#[verifier::external_type_specification]
#[verifier::external_body]
pub struct ExBytes(bytes::Bytes);

/// The bytes held by a `Bytes` buffer.
pub uninterp spec fn bytes_view(b: Bytes) -> Seq<u8>;

/// Relies on `bytes::Bytes::copy_from_slice`: the new buffer holds a copy of
/// `s`, byte for byte.
#[verifier::external_body]
fn bytes_copy(s: &[u8]) -> (r: Bytes)
    ensures
        bytes_view(r) == s@,
{
    Bytes::copy_from_slice(s)
}

/// A piece of a frame's wire encoding, stamped with the instant it was
/// released for sending.
pub struct Chunk {
    pub released_at: u64,
    pub data: Bytes,
}

/// A frame waiting for its deadline.
pub struct Scheduled {
    pub deadline: u64,
    pub payload: Vec<u8>,
}

/// Paces frames and encodes them into chunks of at most `mtu` bytes.
pub struct Packetizer {
    clock: PacingClock,
    mtu: usize,
}

impl Packetizer {
    /// The pacing anchor (see [`PacingClock`]).
    pub closed spec fn spec_anchor(&self) -> Option<(i64, u64)> {
        self.clock@
    }

    /// The largest chunk handed out.
    pub closed spec fn spec_mtu(&self) -> nat {
        self.mtu as nat
    }

    /// A packetizer whose clock has no anchor yet.
    pub fn new(mtu: usize) -> (r: Self)
        requires
            mtu > 0,
        ensures
            r.spec_mtu() == mtu,
            r.spec_anchor() == None::<(i64, u64)>,
    {
        Packetizer { clock: PacingClock::new(), mtu }
    }

    pub fn mtu(&self) -> (r: usize)
        ensures
            r == self.spec_mtu(),
    {
        self.mtu
    }

    /// Forgets the pacing anchor, as when the stream is set up anew.
    pub fn reset(&mut self)
        ensures
            final(self).spec_mtu() == old(self).spec_mtu(),
            final(self).spec_anchor() == None::<(i64, u64)>,
    {
        self.clock.reset();
    }

    /// Schedules `payload`, with media timestamp `media_ts`, asked at time
    /// `now`: its deadline is the pacing clock's, whose anchor advances.
    pub fn submit(&mut self, payload: Vec<u8>, media_ts: i64, now: u64) -> (r: Scheduled)
        ensures
            (final(self).spec_anchor(), r.deadline) == pacing_step(
                old(self).spec_anchor(),
                media_ts,
                now,
            ),
            r.payload@ == payload@,
            final(self).spec_mtu() == old(self).spec_mtu(),
    {
        let deadline = self.clock.next_deadline(media_ts, now);
        Scheduled { deadline, payload }
    }

    /// The chunks of a scheduled frame, released at `released_at` (the actual
    /// instant, which may be after the deadline): its wire encoding cut into
    /// pieces of `mtu` bytes, the last one possibly shorter, each stamped with
    /// `released_at`.
    pub fn release(&self, frame: &Scheduled, released_at: u64) -> (r: Vec<Chunk>)
        requires
            self.spec_mtu() > 0,
            frame.payload@.len() <= MAX_PAYLOAD,
            frame.payload@.len() + 4 <= usize::MAX,
        ensures
            r@.len() == split(wire(frame.payload@), self.spec_mtu()).len(),
            forall|i: int|
                0 <= i < r@.len() ==> {
                    &&& (#[trigger] r@[i]).released_at == released_at
                    &&& bytes_view(r@[i].data) == split(wire(frame.payload@), self.spec_mtu())[i]
                },
    {
        let pieces = encode(frame.payload.as_slice(), self.mtu);
        let ghost want = split(wire(frame.payload@), self.mtu as nat);
        let mut r: Vec<Chunk> = Vec::with_capacity(pieces.len());
        let mut i: usize = 0;
        while i < pieces.len()
            invariant
                i <= pieces@.len() == want.len(),
                forall|k: int| 0 <= k < pieces@.len() ==> (#[trigger] pieces@[k])@ == want[k],
                r@.len() == i,
                forall|k: int|
                    0 <= k < i ==> {
                        &&& (#[trigger] r@[k]).released_at == released_at
                        &&& bytes_view(r@[k].data) == want[k]
                    },
            decreases pieces@.len() - i,
        {
            proof {
                assert(crate::codec::views(pieces@)[i as int] == pieces@[i as int]@);
            }
            let data = bytes_copy(pieces[i].as_slice());
            r.push(Chunk { released_at, data });
            i = i + 1;
        }
        r
    }
}

} // verus!
