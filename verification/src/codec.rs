//! Wire framing: each message travels as a one-byte length prefix (0..=255)
//! followed by exactly that many payload bytes, with no magic bytes, no
//! version field and no checksum.

use vstd::prelude::*;

verus! {

/// Largest payload one frame can carry: the length prefix is a single byte.
pub const MAX_PAYLOAD_LEN: usize = 255;

/// The bytes of one wire frame for payload `p`: length prefix, then payload.
pub open spec fn frame_bytes(p: Seq<u8>) -> Seq<u8>
    recommends
        p.len() <= MAX_PAYLOAD_LEN,
{
    seq![p.len() as u8] + p
}

/// A buffer starts with a complete frame when it holds the length byte and
/// every payload byte that the length byte announces.
pub open spec fn frame_complete(buf: Seq<u8>) -> bool {
    buf.len() >= 1 && buf.len() >= 1 + buf[0] as int
}

/// The payload of the frame at the front of `buf`.
pub open spec fn frame_payload(buf: Seq<u8>) -> Seq<u8>
    recommends
        frame_complete(buf),
{
    buf.subrange(1, 1 + buf[0] as int)
}

/// The bytes left over once the frame at the front of `buf` is consumed.
pub open spec fn frame_rest(buf: Seq<u8>) -> Seq<u8>
    recommends
        frame_complete(buf),
{
    buf.subrange(1 + buf[0] as int, buf.len() as int)
}

/// All payloads of the complete frames at the front of `buf`, in order.
pub open spec fn parsed_frames(buf: Seq<u8>) -> Seq<Seq<u8>>
    decreases buf.len(),
{
    if frame_complete(buf) {
        seq![frame_payload(buf)] + parsed_frames(frame_rest(buf))
    } else {
        Seq::empty()
    }
}

/// The bytes left after consuming every complete frame at the front of `buf`:
/// either empty or the start of a frame still missing bytes.
pub open spec fn parse_rest(buf: Seq<u8>) -> Seq<u8>
    decreases buf.len(),
{
    if frame_complete(buf) {
        parse_rest(frame_rest(buf))
    } else {
        buf
    }
}

/// Encodes one payload as a wire frame.
pub fn encode_frame(payload: &Vec<u8>) -> (frame: Vec<u8>)
    requires
        payload@.len() <= MAX_PAYLOAD_LEN,
    ensures
        frame@ == frame_bytes(payload@),
        frame@.len() == payload@.len() + 1,
{
    let mut frame: Vec<u8> = Vec::new();
    frame.push(payload.len() as u8);
    let mut i: usize = 0;
    while i < payload.len()
        invariant
            i <= payload@.len(),
            payload@.len() <= MAX_PAYLOAD_LEN,
            frame@ == seq![payload@.len() as u8] + payload@.subrange(0, i as int),
        decreases payload@.len() - i,
    {
        frame.push(payload[i]);
        i = i + 1;
        proof {
            assert(frame@ =~= seq![payload@.len() as u8] + payload@.subrange(0, i as int));
        }
    }
    proof {
        assert(payload@.subrange(0, payload@.len() as int) =~= payload@);
        assert(frame@ =~= frame_bytes(payload@));
    }
    frame
}

/// Copies a payload byte for byte.
pub fn copy_payload(payload: &Vec<u8>) -> (r: Vec<u8>)
    ensures
        r@ == payload@,
{
    let mut r: Vec<u8> = Vec::new();
    let mut i: usize = 0;
    while i < payload.len()
        invariant
            i <= payload@.len(),
            r@ == payload@.subrange(0, i as int),
        decreases payload@.len() - i,
    {
        r.push(payload[i]);
        i = i + 1;
        proof {
            assert(r@ =~= payload@.subrange(0, i as int));
        }
    }
    proof {
        assert(r@ =~= payload@);
    }
    r
}

/// Incremental frame decoder: accumulates raw bytes from a stream and hands
/// back each complete frame's payload, keeping any trailing partial frame
/// buffered until the rest of its bytes arrive.
pub struct FrameDecoder {
    buf: Vec<u8>,
}

impl View for FrameDecoder {
    type V = Seq<u8>;

    closed spec fn view(&self) -> Seq<u8> {
        self.buf@
    }
}

impl FrameDecoder {
    /// A decoder with nothing buffered.
    pub fn new() -> (d: FrameDecoder)
        ensures
            d@ == Seq::<u8>::empty(),
    {
        FrameDecoder { buf: Vec::new() }
    }

    /// Appends freshly received bytes to the buffer.
    pub fn push_bytes(&mut self, data: &Vec<u8>)
        ensures
            final(self)@ == old(self)@ + data@,
    {
        let mut i: usize = 0;
        while i < data.len()
            invariant
                i <= data@.len(),
                self.buf@ == old(self)@ + data@.subrange(0, i as int),
            decreases data@.len() - i,
        {
            self.buf.push(data[i]);
            i = i + 1;
            proof {
                assert(self.buf@ =~= old(self)@ + data@.subrange(0, i as int));
            }
        }
        proof {
            assert(self.buf@ =~= old(self)@ + data@);
        }
    }

    /// Whether a complete frame is buffered.
    pub fn has_frame(&self) -> (r: bool)
        ensures
            r == frame_complete(self@),
    {
        if self.buf.len() == 0 {
            false
        } else {
            let len = self.buf[0] as usize;
            self.buf.len() >= 1 + len
        }
    }

    /// Takes the frame at the front of the buffer, if it is complete.
    /// A partial frame is never handed out: until its last byte arrives the
    /// buffer is left as it is and `None` comes back.
    pub fn next_frame(&mut self) -> (r: Option<Vec<u8>>)
        ensures
            frame_complete(old(self)@) ==> r is Some,
            (r matches Some(p) ==> {
                &&& frame_complete(old(self)@)
                &&& p@ == frame_payload(old(self)@)
                &&& p@.len() <= MAX_PAYLOAD_LEN
                &&& final(self)@ == frame_rest(old(self)@)
            }),
            r is None ==> final(self)@ == old(self)@,
    {
        if self.buf.len() == 0 {
            return None;
        }
        let len = self.buf[0] as usize;
        if self.buf.len() < 1 + len {
            return None;
        }
        let mut payload: Vec<u8> = Vec::new();
        let mut i: usize = 0;
        while i < len
            invariant
                i <= len,
                len + 1 <= self.buf@.len(),
                self.buf@ == old(self)@,
                len == old(self)@[0] as int,
                payload@ == old(self)@.subrange(1, 1 + i as int),
            decreases len - i,
        {
            payload.push(self.buf[1 + i]);
            i = i + 1;
            proof {
                assert(payload@ =~= old(self)@.subrange(1, 1 + i as int));
            }
        }
        let mut rest: Vec<u8> = Vec::new();
        let mut j: usize = 1 + len;
        while j < self.buf.len()
            invariant
                1 + len <= j <= self.buf@.len(),
                self.buf@ == old(self)@,
                len == old(self)@[0] as int,
                rest@ == old(self)@.subrange(1 + len as int, j as int),
            decreases self.buf@.len() - j,
        {
            rest.push(self.buf[j]);
            j = j + 1;
            proof {
                assert(rest@ =~= old(self)@.subrange(1 + len as int, j as int));
            }
        }
        self.buf = rest;
        proof {
            assert(payload@ =~= frame_payload(old(self)@));
            assert(self.buf@ =~= frame_rest(old(self)@));
        }
        Some(payload)
    }
}

/// Encoding a payload and decoding the result gives back exactly that
/// payload, with no bytes left over.
pub proof fn lemma_frame_round_trip(p: Seq<u8>)
    requires
        p.len() <= MAX_PAYLOAD_LEN,
    ensures
        frame_complete(frame_bytes(p)),
        frame_payload(frame_bytes(p)) == p,
        frame_rest(frame_bytes(p)) == Seq::<u8>::empty(),
{
    assert(frame_bytes(p)[0] == p.len() as u8);
    assert(frame_payload(frame_bytes(p)) =~= p);
    assert(frame_rest(frame_bytes(p)) =~= Seq::<u8>::empty());
}

/// The round trip at stream level: a stream holding exactly one encoded
/// frame parses to exactly that payload, with nothing buffered afterwards.
pub proof fn lemma_parsed_frames_round_trip(p: Seq<u8>)
    requires
        p.len() <= MAX_PAYLOAD_LEN,
    ensures
        parsed_frames(frame_bytes(p)) == seq![p],
        parse_rest(frame_bytes(p)) == Seq::<u8>::empty(),
{
    lemma_frame_round_trip(p);
    assert(!frame_complete(frame_rest(frame_bytes(p))));
    assert(parsed_frames(frame_rest(frame_bytes(p))) =~= Seq::<Seq<u8>>::empty());
    assert(parsed_frames(frame_bytes(p)) =~= seq![p]);
    assert(parse_rest(frame_rest(frame_bytes(p))) =~= Seq::<u8>::empty());
}

} // verus!
