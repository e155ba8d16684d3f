//! The frame wire format: a 4-byte big-endian payload length, then the payload.
use vstd::prelude::*;

verus! {

/// Largest payload that the 32-bit length field can describe.
pub const MAX_PAYLOAD: usize = 0xffff_ffff;

/// The four big-endian bytes of `n`.
pub open spec fn be_bytes(n: u32) -> Seq<u8> {
    seq![(n >> 24u32) as u8, (n >> 16u32) as u8, (n >> 8u32) as u8, n as u8]
}

/// The value of four big-endian bytes.
pub open spec fn be_value(b0: u8, b1: u8, b2: u8, b3: u8) -> u32 {
    ((b0 as u32) << 24u32) | ((b1 as u32) << 16u32) | ((b2 as u32) << 8u32) | (b3 as u32)
}

/// Reading back the bytes of `n` gives `n`.
pub proof fn lemma_be_round_trip(n: u32)
    ensures
        be_value(be_bytes(n)[0], be_bytes(n)[1], be_bytes(n)[2], be_bytes(n)[3]) == n,
{
    let b = be_bytes(n);
    assert(b[0] == (n >> 24u32) as u8 && b[1] == (n >> 16u32) as u8 && b[2] == (n >> 8u32) as u8
        && b[3] == n as u8);
    assert(((((n >> 24u32) as u8) as u32) << 24u32) | ((((n >> 16u32) as u8) as u32) << 16u32) | ((
    ((n >> 8u32) as u8) as u32) << 8u32) | ((n as u8) as u32) == n) by (bit_vector);
}

/// The wire encoding of one payload.
pub open spec fn wire(payload: Seq<u8>) -> Seq<u8>
    recommends
        payload.len() <= MAX_PAYLOAD,
{
    be_bytes(payload.len() as u32) + payload
}

/// The wire encodings of `frames`, back to back.
pub open spec fn wire_all(frames: Seq<Seq<u8>>) -> Seq<u8>
    decreases frames.len(),
{
    if frames.len() == 0 {
        Seq::empty()
    } else {
        wire(frames[0]) + wire_all(frames.drop_first())
    }
}

/// The concatenation of `parts`.
pub open spec fn concat(parts: Seq<Seq<u8>>) -> Seq<u8>
    decreases parts.len(),
{
    if parts.len() == 0 {
        Seq::empty()
    } else {
        parts[0] + concat(parts.drop_first())
    }
}

/// `s` cut into consecutive pieces of `mtu` bytes, the last one possibly shorter.
pub open spec fn split(s: Seq<u8>, mtu: nat) -> Seq<Seq<u8>>
    recommends
        mtu > 0,
    decreases s.len(),
{
    if mtu == 0 || s.len() == 0 {
        Seq::empty()
    } else if s.len() <= mtu {
        seq![s]
    } else {
        seq![s.subrange(0, mtu as int)] + split(s.subrange(mtu as int, s.len() as int), mtu)
    }
}

/// The views of a sequence of byte vectors.
pub open spec fn views(v: Seq<Vec<u8>>) -> Seq<Seq<u8>> {
    v.map_values(|x: Vec<u8>| x@)
}

/// What decoding `buf` produces, starting with `expected` as the length of a
/// frame whose prefix has already been read: the completed frames, the length
/// still expected, and the bytes left over.
pub open spec fn decode(expected: Option<u32>, buf: Seq<u8>) -> (Seq<Seq<u8>>, Option<u32>, Seq<u8>)
    decreases buf.len(), if expected.is_some() { 1nat } else { 0nat },
{
    match expected {
        None => {
            if buf.len() >= 4 {
                decode(
                    Some(be_value(buf[0], buf[1], buf[2], buf[3])),
                    buf.subrange(4, buf.len() as int),
                )
            } else {
                (Seq::empty(), None, buf)
            }
        },
        Some(n) => {
            if buf.len() >= n {
                let rest = decode(None, buf.subrange(n as int, buf.len() as int));
                (seq![buf.subrange(0, n as int)] + rest.0, rest.1, rest.2)
            } else {
                (Seq::empty(), Some(n), buf)
            }
        },
    }
}

/// Decoding `a + b` is decoding `a`, then decoding what `a` left together with `b`.
pub proof fn lemma_decode_append(expected: Option<u32>, a: Seq<u8>, b: Seq<u8>)
    ensures
        ({
            let first = decode(expected, a);
            let second = decode(first.1, first.2 + b);
            decode(expected, a + b) == (first.0 + second.0, second.1, second.2)
        }),
    decreases a.len(), if expected.is_some() { 1nat } else { 0nat },
{
    let ab = a + b;
    match expected {
        None => {
            if a.len() >= 4 {
                let n = be_value(a[0], a[1], a[2], a[3]);
                assert(ab[0] == a[0] && ab[1] == a[1] && ab[2] == a[2] && ab[3] == a[3]);
                assert(ab.subrange(4, ab.len() as int) =~= a.subrange(4, a.len() as int) + b);
                lemma_decode_append(Some(n), a.subrange(4, a.len() as int), b);
            } else {
                assert(Seq::<Seq<u8>>::empty() + decode(None, a + b).0 =~= decode(None, a + b).0);
            }
        },
        Some(n) => {
            if a.len() >= n {
                let rest_a = a.subrange(n as int, a.len() as int);
                assert(ab.subrange(n as int, ab.len() as int) =~= rest_a + b);
                assert(ab.subrange(0, n as int) =~= a.subrange(0, n as int));
                lemma_decode_append(None, rest_a, b);
                let first = decode(None, rest_a);
                let second = decode(first.1, first.2 + b);
                assert(seq![a.subrange(0, n as int)] + (first.0 + second.0) =~= (seq![
                    a.subrange(0, n as int),
                ] + first.0) + second.0);
            } else {
                assert(Seq::<Seq<u8>>::empty() + decode(Some(n), a + b).0 =~= decode(
                    Some(n),
                    a + b,
                ).0);
            }
        },
    }
}

/// Decoding one wire unit followed by more bytes yields its payload first.
pub proof fn lemma_decode_wire(payload: Seq<u8>, rest: Seq<u8>)
    requires
        payload.len() <= MAX_PAYLOAD,
    ensures
        ({
            let tail = decode(None, rest);
            decode(None, wire(payload) + rest) == (seq![payload] + tail.0, tail.1, tail.2)
        }),
{
    let s = wire(payload) + rest;
    let n = payload.len() as u32;
    lemma_be_round_trip(n);
    assert(s[0] == be_bytes(n)[0] && s[1] == be_bytes(n)[1] && s[2] == be_bytes(n)[2] && s[3]
        == be_bytes(n)[3]);
    let body = s.subrange(4, s.len() as int);
    assert(body =~= payload + rest);
    assert(body.subrange(0, n as int) =~= payload);
    assert(body.subrange(n as int, body.len() as int) =~= rest);
    assert(be_value(s[0], s[1], s[2], s[3]) == n);
    assert(decode(None, s) == decode(Some(n), body));
    assert(body.len() >= n);
}

/// Decoding the back-to-back encodings of `frames` gives back exactly `frames`,
/// with nothing pending.
pub proof fn lemma_decode_wire_all(frames: Seq<Seq<u8>>)
    requires
        forall|i: int| 0 <= i < frames.len() ==> (#[trigger] frames[i]).len() <= MAX_PAYLOAD,
    ensures
        decode(None, wire_all(frames)) == (frames, None::<u32>, Seq::<u8>::empty()),
    decreases frames.len(),
{
    if frames.len() == 0 {
    } else {
        let tail = frames.drop_first();
        assert forall|i: int| 0 <= i < tail.len() implies (#[trigger] tail[i]).len()
            <= MAX_PAYLOAD by {
            assert(tail[i] == frames[i + 1]);
        }
        lemma_decode_wire_all(tail);
        lemma_decode_wire(frames[0], wire_all(tail));
        assert(seq![frames[0]] + tail =~= frames);
    }
}

/// Cutting `s` into pieces and putting them back together gives `s`; no piece
/// is empty or longer than `mtu`.
pub proof fn lemma_split(s: Seq<u8>, mtu: nat)
    requires
        mtu > 0,
    ensures
        concat(split(s, mtu)) == s,
        forall|i: int|
            0 <= i < split(s, mtu).len() ==> 0 < (#[trigger] split(s, mtu)[i]).len() <= mtu,
    decreases s.len(),
{
    if s.len() == 0 {
        assert(s =~= Seq::empty());
    } else if s.len() <= mtu {
        let one = seq![s];
        assert(split(s, mtu) == one);
        assert(one.drop_first() =~= Seq::<Seq<u8>>::empty());
        assert(concat(one.drop_first()) == Seq::<u8>::empty());
        assert(s + Seq::<u8>::empty() =~= s);
        assert(concat(one) == one[0] + concat(one.drop_first()));
    } else {
        let head = s.subrange(0, mtu as int);
        let tail = s.subrange(mtu as int, s.len() as int);
        lemma_split(tail, mtu);
        let parts = split(s, mtu);
        assert(parts =~= seq![head] + split(tail, mtu));
        assert(parts[0] == head);
        assert(parts.drop_first() =~= split(tail, mtu));
        assert(head + tail =~= s);
        assert(concat(parts) == parts[0] + concat(parts.drop_first()));
        assert forall|i: int| 0 <= i < parts.len() implies 0 < (#[trigger] parts[i]).len()
            <= mtu by {
            if i > 0 {
                assert(parts[i] == split(tail, mtu)[i - 1]);
            }
        }
    }
}

/// A copy of `v[from..to]`.
pub fn copy_range(v: &[u8], from: usize, to: usize) -> (r: Vec<u8>)
    requires
        from <= to <= v@.len(),
    ensures
        r@ == v@.subrange(from as int, to as int),
{
    let mut r: Vec<u8> = Vec::with_capacity(to - from);
    let mut i: usize = from;
    while i < to
        invariant
            from <= i <= to <= v@.len(),
            r@ == v@.subrange(from as int, i as int),
        decreases to - i,
    {
        r.push(v[i]);
        assert(r@ =~= v@.subrange(from as int, i + 1));
        i = i + 1;
    }
    r
}

/// The wire encoding of `payload`: its length as four big-endian bytes, then
/// the payload.
pub fn encode_frame(payload: &[u8]) -> (r: Vec<u8>)
    requires
        payload@.len() <= MAX_PAYLOAD,
        payload@.len() + 4 <= usize::MAX,
    ensures
        r@ == wire(payload@),
{
    let n = payload.len() as u32;
    let mut r: Vec<u8> = Vec::with_capacity(payload.len() + 4);
    r.push((n >> 24u32) as u8);
    r.push((n >> 16u32) as u8);
    r.push((n >> 8u32) as u8);
    r.push(n as u8);
    assert(r@ =~= be_bytes(n));
    let mut i: usize = 0;
    while i < payload.len()
        invariant
            i <= payload@.len(),
            r@ == be_bytes(n) + payload@.subrange(0, i as int),
        decreases payload@.len() - i,
    {
        r.push(payload[i]);
        assert(r@ =~= be_bytes(n) + payload@.subrange(0, i + 1));
        i = i + 1;
    }
    assert(payload@.subrange(0, i as int) =~= payload@);
    r
}

/// `bytes` cut into consecutive chunks of `mtu` bytes, the last one possibly
/// shorter; no chunk is empty.
pub fn split_chunks(bytes: &[u8], mtu: usize) -> (r: Vec<Vec<u8>>)
    requires
        mtu > 0,
    ensures
        views(r@) == split(bytes@, mtu as nat),
{
    let mut r: Vec<Vec<u8>> = Vec::new();
    let mut pos: usize = 0;
    let len = bytes.len();
    assert(views(r@) + split(bytes@, mtu as nat) =~= split(bytes@, mtu as nat));
    assert(bytes@.subrange(0, len as int) =~= bytes@);
    while pos < len
        invariant
            pos <= len == bytes@.len(),
            mtu > 0,
            split(bytes@, mtu as nat) == views(r@) + split(
                bytes@.subrange(pos as int, len as int),
                mtu as nat,
            ),
        decreases len - pos,
    {
        let rest = Ghost(bytes@.subrange(pos as int, len as int));
        let end: usize = if len - pos <= mtu {
            len
        } else {
            pos + mtu
        };
        let chunk = copy_range(bytes, pos, end);
        proof {
            if end == len {
                assert(chunk@ =~= rest@);
                assert(split(bytes@.subrange(end as int, len as int), mtu as nat) =~= Seq::empty());
            } else {
                assert(chunk@ =~= rest@.subrange(0, mtu as int));
                assert(rest@.subrange(mtu as int, rest@.len() as int) =~= bytes@.subrange(
                    end as int,
                    len as int,
                ));
            }
        }
        let ghost before = r@;
        r.push(chunk);
        assert(views(r@) =~= views(before).push(chunk@));
        assert(views(before) + split(rest@, mtu as nat) =~= views(r@) + split(
            bytes@.subrange(end as int, len as int),
            mtu as nat,
        ));
        pos = end;
    }
    assert(split(bytes@.subrange(pos as int, len as int), mtu as nat) =~= Seq::empty());
    assert(views(r@) + Seq::<Seq<u8>>::empty() =~= views(r@));
    r
}

/// The wire encoding of `payload` cut into chunks of at most `mtu` bytes.
pub fn encode(payload: &[u8], mtu: usize) -> (r: Vec<Vec<u8>>)
    requires
        mtu > 0,
        payload@.len() <= MAX_PAYLOAD,
        payload@.len() + 4 <= usize::MAX,
    ensures
        views(r@) == split(wire(payload@), mtu as nat),
        concat(views(r@)) == wire(payload@),
{
    let w = encode_frame(payload);
    let r = split_chunks(w.as_slice(), mtu);
    proof {
        lemma_split(w@, mtu as nat);
    }
    r
}

/// A decoding state is settled when nothing more can be read from it without
/// further input: with no length pending fewer than 4 bytes are held, and with
/// a length pending fewer than that many.
pub open spec fn settled(expected: Option<u32>, buf: Seq<u8>) -> bool {
    match expected {
        None => buf.len() < 4,
        Some(n) => buf.len() < n,
    }
}

/// Decoding always ends in a settled state.
pub proof fn lemma_decode_settled(expected: Option<u32>, buf: Seq<u8>)
    ensures
        settled(decode(expected, buf).1, decode(expected, buf).2),
    decreases buf.len(), if expected.is_some() { 1nat } else { 0nat },
{
    match expected {
        None => {
            if buf.len() >= 4 {
                lemma_decode_settled(
                    Some(be_value(buf[0], buf[1], buf[2], buf[3])),
                    buf.subrange(4, buf.len() as int),
                );
            }
        },
        Some(n) => {
            if buf.len() >= n {
                lemma_decode_settled(None, buf.subrange(n as int, buf.len() as int));
            }
        },
    }
}

/// The receive-side decoding state: bytes not yet consumed, and the length of
/// the frame whose prefix has been read, if any.
pub struct ReassemblyBuffer {
    buf: Vec<u8>,
    expected: Option<u32>,
}

impl View for ReassemblyBuffer {
    type V = (Option<u32>, Seq<u8>);

    closed spec fn view(&self) -> (Option<u32>, Seq<u8>) {
        (self.expected, self.buf@)
    }
}

impl ReassemblyBuffer {
    /// The state is settled (see [`settled`]).
    pub open spec fn wf(&self) -> bool {
        settled(self@.0, self@.1)
    }

    /// An empty buffer with no length pending.
    pub fn new() -> (r: Self)
        ensures
            r@ == (None::<u32>, Seq::<u8>::empty()),
            r.wf(),
    {
        ReassemblyBuffer { buf: Vec::new(), expected: None }
    }

    /// Number of bytes held and not yet consumed.
    pub fn buffered(&self) -> (r: usize)
        ensures
            r == self@.1.len(),
    {
        self.buf.len()
    }

    /// The length of the frame whose prefix has been read, if any.
    pub fn expected_len(&self) -> (r: Option<u32>)
        ensures
            r == self@.0,
    {
        self.expected
    }

    /// Appends `incoming` and takes out every frame that is now complete, in
    /// order. Frames that are still incomplete stay buffered.
    pub fn feed(&mut self, incoming: &[u8]) -> (frames: Vec<Vec<u8>>)
        requires
            old(self)@.1.len() + incoming@.len() <= usize::MAX,
        ensures
            ({
                let d = decode(old(self)@.0, old(self)@.1 + incoming@);
                &&& views(frames@) == d.0
                &&& final(self)@ == (d.1, d.2)
            }),
            final(self).wf(),
    {
        let ghost start = self.buf@ + incoming@;
        let ghost e0 = self.expected;
        let mut i: usize = 0;
        while i < incoming.len()
            invariant
                i <= incoming@.len(),
                self.buf@ == old(self).buf@ + incoming@.subrange(0, i as int),
                self.expected == old(self).expected,
            decreases incoming@.len() - i,
        {
            self.buf.push(incoming[i]);
            assert(self.buf@ =~= old(self).buf@ + incoming@.subrange(0, i + 1));
            i = i + 1;
        }
        assert(incoming@.subrange(0, i as int) =~= incoming@);
        let mut frames: Vec<Vec<u8>> = Vec::new();
        let mut pos: usize = 0;
        let len = self.buf.len();
        let mut expected = self.expected;
        assert(self.buf@.subrange(0, len as int) =~= self.buf@);
        assert(views(frames@) + decode(e0, start).0 =~= decode(e0, start).0);
        loop
            invariant
                pos <= len == self.buf@.len(),
                self.buf@ == start,
                decode(e0, start) == ({
                    let d = decode(expected, start.subrange(pos as int, len as int));
                    (views(frames@) + d.0, d.1, d.2)
                }),
            ensures
                pos <= len == self.buf@.len(),
                self.buf@ == start,
                settled(expected, start.subrange(pos as int, len as int)),
                decode(e0, start) == ({
                    let d = decode(expected, start.subrange(pos as int, len as int));
                    (views(frames@) + d.0, d.1, d.2)
                }),
            decreases len - pos, if expected.is_some() { 1nat } else { 0nat },
        {
            let ghost rest = start.subrange(pos as int, len as int);
            match expected {
                None => {
                    if len - pos >= 4 {
                        let n = be_read(self.buf.as_slice(), pos);
                        assert(rest.subrange(4, rest.len() as int) =~= start.subrange(
                            pos + 4,
                            len as int,
                        ));
                        expected = Some(n);
                        pos = pos + 4;
                    } else {
                        break ;
                    }
                },
                Some(n) => {
                    if len - pos >= n as usize {
                        let end = pos + n as usize;
                        let frame = copy_range(self.buf.as_slice(), pos, end);
                        let ghost before = frames@;
                        assert(frame@ =~= rest.subrange(0, n as int));
                        assert(rest.subrange(n as int, rest.len() as int) =~= start.subrange(
                            end as int,
                            len as int,
                        ));
                        frames.push(frame);
                        let ghost tail = decode(None, start.subrange(end as int, len as int));
                        assert(views(frames@) =~= views(before).push(frame@));
                        assert(views(before) + (seq![frame@] + tail.0) =~= views(frames@)
                            + tail.0);
                        expected = None;
                        pos = end;
                    } else {
                        break ;
                    }
                },
            }
        }
        let ghost d = decode(expected, start.subrange(pos as int, len as int));
        assert(d.0 =~= Seq::<Seq<u8>>::empty());
        assert(views(frames@) + d.0 =~= views(frames@));
        self.buf = copy_range(self.buf.as_slice(), pos, len);
        self.expected = expected;
        proof {
            lemma_decode_settled(e0, start);
        }
        frames
    }
}

/// The big-endian value of `b[at..at + 4]`.
pub fn be_read(b: &[u8], at: usize) -> (r: u32)
    requires
        at + 4 <= b@.len(),
    ensures
        r == be_value(b@[at as int], b@[at + 1], b@[at + 2], b@[at + 3]),
{
    ((b[at] as u32) << 24u32) | ((b[at + 1] as u32) << 16u32) | ((b[at + 2] as u32) << 8u32) | (
    b[at + 3] as u32)
}

/// What feeding `chunks` one after another into a buffer in `state` produces:
/// the frames taken out by all the calls, in order, and the final state.
pub open spec fn feed_all(state: (Option<u32>, Seq<u8>), chunks: Seq<Seq<u8>>) -> (
    Seq<Seq<u8>>,
    (Option<u32>, Seq<u8>),
)
    decreases chunks.len(),
{
    if chunks.len() == 0 {
        (Seq::empty(), state)
    } else {
        let d = decode(state.0, state.1 + chunks[0]);
        let rest = feed_all((d.1, d.2), chunks.drop_first());
        (d.0 + rest.0, rest.1)
    }
}

/// Split-insensitivity: feeding a byte stream in any number of pieces, cut
/// anywhere (inside a length prefix too), yields the same frames and leaves the
/// same state as feeding it in one piece, from any settled state.
pub proof fn lemma_feed_split_insensitive(state: (Option<u32>, Seq<u8>), chunks: Seq<Seq<u8>>)
    requires
        settled(state.0, state.1),
    ensures
        ({
            let whole = decode(state.0, state.1 + concat(chunks));
            feed_all(state, chunks) == (whole.0, (whole.1, whole.2))
        }),
    decreases chunks.len(),
{
    if chunks.len() == 0 {
        assert(state.1 + concat(chunks) =~= state.1);
        assert(decode(state.0, state.1) == (Seq::<Seq<u8>>::empty(), state.0, state.1));
    } else {
        let c0 = chunks[0];
        let cs = chunks.drop_first();
        let d = decode(state.0, state.1 + c0);
        lemma_decode_settled(state.0, state.1 + c0);
        lemma_feed_split_insensitive((d.1, d.2), cs);
        lemma_decode_append(state.0, state.1 + c0, concat(cs));
        assert((state.1 + c0) + concat(cs) =~= state.1 + concat(chunks));
    }
}

/// Round trip: cutting the back-to-back encodings of `frames` into pieces
/// anyhow and feeding the pieces in order into a fresh buffer takes out exactly
/// `frames`, in order, and leaves the buffer empty with no length pending.
pub proof fn lemma_round_trip(frames: Seq<Seq<u8>>, chunks: Seq<Seq<u8>>)
    requires
        forall|i: int| 0 <= i < frames.len() ==> (#[trigger] frames[i]).len() <= MAX_PAYLOAD,
        concat(chunks) == wire_all(frames),
    ensures
        feed_all((None, Seq::empty()), chunks) == (frames, (None::<u32>, Seq::<u8>::empty())),
{
    lemma_feed_split_insensitive((None, Seq::empty()), chunks);
    assert(Seq::<u8>::empty() + concat(chunks) =~= wire_all(frames));
    lemma_decode_wire_all(frames);
}

} // verus!
