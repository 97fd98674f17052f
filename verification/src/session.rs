//! The reader side of one connection, as a verified state machine.
//!
//! A session turns a client's raw byte stream into registry events and
//! carries the lifecycle guarantee that brackets it: the very
//! first event a session emits is the client's `Joined`, every event in
//! between is a `Broadcast` carrying one complete frame's payload, and the
//! session ends with exactly one `Left` — emitted once, on `close`, no
//! matter how the read loop ended. The caller performs the blocking reads
//! and hands the bytes in; the session decides everything else.

use vstd::prelude::*;
use crate::codec::FrameDecoder;
use crate::codec::parse_rest;
use crate::codec::parsed_frames;
use crate::registry::RegistryEvent;
use crate::registry::QueueModel;
use crate::registry::apply_event_map;
use crate::registry::apply_events_map;
use crate::registry::deliver_one;
use crate::registry::event_ok;
use crate::registry::is_broadcast;
use crate::registry::is_left;
use crate::registry::is_left_for;
use crate::registry::is_joined_for;
use crate::registry::payload_of;
use crate::registry::lemma_registration_before_first_frame;

verus! {

/// The payloads carried by a sequence of `Broadcast` events, in order.
spec fn payloads_seq(es: Seq<RegistryEvent>) -> Seq<Seq<u8>> {
    Seq::new(es.len(), |i: int| payload_of(es[i]))
}

/// One client's reader lifecycle: its address, the capacity its outbound
/// queue was created with, the frame decoder for its inbound bytes, and a
/// ghost trace of every registry event the session has emitted.
pub struct ReaderSession {
    addr: u64,
    cap: usize,
    decoder: FrameDecoder,
    done: bool,
    trace: Ghost<Seq<RegistryEvent>>,
}

impl ReaderSession {
    /// The address this session registered.
    pub closed spec fn addr_spec(&self) -> u64 {
        self.addr
    }

    /// The outbound-queue capacity this session registered with.
    pub closed spec fn cap_spec(&self) -> usize {
        self.cap
    }

    /// Every registry event this session has emitted, in order.
    pub closed spec fn emitted(&self) -> Seq<RegistryEvent> {
        self.trace@
    }

    /// The bytes of a partial frame still waiting for completion.
    pub closed spec fn residue(&self) -> Seq<u8> {
        self.decoder@
    }

    /// Whether the session has been closed (its `Left` has been emitted).
    pub closed spec fn finished(&self) -> bool {
        self.done
    }

    /// The lifecycle invariant: the trace starts with this client's
    /// `Joined`, everything after it is a `Broadcast`, except that a closed
    /// session ends with exactly one final `Left`.
    pub closed spec fn wf(&self) -> bool {
        &&& self.trace@.len() >= 1
        &&& self.trace@[0] == RegistryEvent::Joined(self.addr, self.cap)
        &&& (!self.done ==> forall|i: int|
            1 <= i < self.trace@.len() ==> is_broadcast(#[trigger] self.trace@[i]))
        &&& (self.done ==> self.trace@.last() == RegistryEvent::Left(self.addr))
        &&& (self.done ==> forall|i: int|
            1 <= i < self.trace@.len() - 1 ==> is_broadcast(#[trigger] self.trace@[i]))
    }

    /// Opens the session for one accepted connection. The returned event is
    /// the client's registration and is the first event the session emits:
    /// it must reach the registry before any frame is read, which is what
    /// rules out losing the client's own first frame to a race.
    pub fn start(addr: u64, cap: usize) -> (r: (ReaderSession, RegistryEvent))
        ensures
            r.0.wf(),
            !r.0.finished(),
            r.0.addr_spec() == addr,
            r.0.cap_spec() == cap,
            r.0.residue() == Seq::<u8>::empty(),
            r.0.emitted() == seq![r.1],
            r.1 == RegistryEvent::Joined(addr, cap),
    {
        let ev = RegistryEvent::Joined(addr, cap);
        let ghost tr: Seq<RegistryEvent> = seq![RegistryEvent::Joined(addr, cap)];
        let s = ReaderSession {
            addr,
            cap,
            decoder: FrameDecoder::new(),
            done: false,
            trace: Ghost(tr),
        };
        (s, ev)
    }

    /// Whether the session has already been closed.
    pub fn is_finished(&self) -> (r: bool)
        ensures
            r == self.finished(),
    {
        self.done
    }

    /// Feeds bytes read from the transport into the session. Every frame
    /// that completes becomes one `Broadcast` event carrying exactly that
    /// frame's payload, in wire order; a trailing partial frame stays
    /// buffered and produces nothing — a truncated frame is never forwarded.
    pub fn on_bytes(&mut self, data: &Vec<u8>) -> (evs: Vec<RegistryEvent>)
        requires
            old(self).wf(),
            !old(self).finished(),
        ensures
            final(self).wf(),
            !final(self).finished(),
            final(self).addr_spec() == old(self).addr_spec(),
            final(self).cap_spec() == old(self).cap_spec(),
            final(self).residue() == parse_rest(old(self).residue() + data@),
            evs@.len() == parsed_frames(old(self).residue() + data@).len(),
            forall|k: int|
                0 <= k < evs@.len() ==> is_broadcast(#[trigger] evs@[k]) && event_ok(evs@[k]),
            forall|k: int|
                0 <= k < evs@.len() ==> payload_of(#[trigger] evs@[k]) == parsed_frames(
                    old(self).residue() + data@,
                )[k],
            final(self).emitted() == old(self).emitted() + evs@,
    {
        self.decoder.push_bytes(data);
        let ghost input = self.decoder@;
        let mut evs: Vec<RegistryEvent> = Vec::new();
        let mut more = self.decoder.has_frame();
        while more
            invariant
                self.addr == old(self).addr,
                self.cap == old(self).cap,
                self.done == old(self).done,
                !self.done,
                more == crate::codec::frame_complete(self.decoder@),
                parsed_frames(input) == payloads_seq(evs@) + parsed_frames(self.decoder@),
                parse_rest(input) == parse_rest(self.decoder@),
                forall|k: int|
                    0 <= k < evs@.len() ==> is_broadcast(#[trigger] evs@[k]) && event_ok(
                        evs@[k],
                    ),
                self.trace@ == old(self).trace@ + evs@,
            decreases self.decoder@.len(),
        {
            let ghost before = self.decoder@;
            let r = self.decoder.next_frame();
            if let Some(p) = r {
                proof {
                    assert(parsed_frames(before) == seq![crate::codec::frame_payload(before)]
                        + parsed_frames(crate::codec::frame_rest(before)));
                }
                let ev = RegistryEvent::Broadcast(p);
                proof {
                    self.trace@ = self.trace@.push(ev);
                }
                evs.push(ev);
                proof {
                    assert(payloads_seq(evs@) =~= payloads_seq(evs@.drop_last()).push(
                        payload_of(evs@.last()),
                    ));
                    assert(parsed_frames(input) =~= payloads_seq(evs@) + parsed_frames(
                        self.decoder@,
                    ));
                    assert(self.trace@ =~= old(self).trace@ + evs@);
                }
            }
            more = self.decoder.has_frame();
        }
        proof {
            assert(parsed_frames(self.decoder@) =~= Seq::<Seq<u8>>::empty());
            assert(parsed_frames(input) =~= payloads_seq(evs@));
            assert forall|k: int|
                0 <= k < evs@.len() implies payload_of(#[trigger] evs@[k]) == parsed_frames(
                input,
            )[k] by {
                assert(parsed_frames(input)[k] == payloads_seq(evs@)[k]);
            }
            assert forall|i: int| 1 <= i < self.trace@.len() implies is_broadcast(
                #[trigger] self.trace@[i],
            ) by {
                if i < old(self).trace@.len() {
                    assert(self.trace@[i] == old(self).trace@[i]);
                } else {
                    assert(self.trace@[i] == evs@[i - old(self).trace@.len()]);
                }
            }
        }
        evs
    }

    /// Closes the session, emitting the one `Left` event for this client.
    /// This is the single disconnect notification of the whole lifecycle:
    /// it is owed on every exit path of a read loop — end of stream, a
    /// transport error, or a truncated frame alike.
    pub fn close(&mut self) -> (ev: RegistryEvent)
        requires
            old(self).wf(),
            !old(self).finished(),
        ensures
            final(self).wf(),
            final(self).finished(),
            final(self).addr_spec() == old(self).addr_spec(),
            final(self).cap_spec() == old(self).cap_spec(),
            ev == RegistryEvent::Left(old(self).addr_spec()),
            final(self).emitted() == old(self).emitted().push(ev),
    {
        self.done = true;
        let ev = RegistryEvent::Left(self.addr);
        proof {
            self.trace@ = self.trace@.push(ev);
        }
        proof {
            assert forall|i: int| 1 <= i < self.trace@.len() - 1 implies is_broadcast(
                #[trigger] self.trace@[i],
            ) by {
                assert(self.trace@[i] == old(self).trace@[i]);
            }
        }
        ev
    }
}

/// The shape of every session trace: registration first, then only
/// broadcasts, and — exactly when the session is closed — one final `Left`.
/// In particular a session emits at most one `Left`, and one `Joined`.
pub proof fn lemma_session_trace_shape(s: &ReaderSession)
    requires
        s.wf(),
    ensures
        s.emitted().len() >= 1,
        s.emitted()[0] == RegistryEvent::Joined(s.addr_spec(), s.cap_spec()),
        !s.finished() ==> forall|i: int|
            0 <= i < s.emitted().len() ==> !is_left(#[trigger] s.emitted()[i]),
        s.finished() ==> s.emitted().last() == RegistryEvent::Left(s.addr_spec()),
        s.finished() ==> forall|i: int|
            0 <= i < s.emitted().len() - 1 ==> !is_left(#[trigger] s.emitted()[i]),
        forall|i: int| 1 <= i < s.emitted().len() ==> !is_joined_for(
            #[trigger] s.emitted()[i],
            s.addr_spec(),
        ),
{
}

/// A closed session leaves no record behind: applying its whole event
/// trace to any registry state ends with its address deregistered — the
/// `Joined` a session emits always has its matching `Left`, and after the
/// `Left` the record is gone.
pub proof fn lemma_closed_session_leaves_no_record(s: &ReaderSession, m0: Map<u64, QueueModel>)
    requires
        s.wf(),
        s.finished(),
    ensures
        !apply_events_map(m0, s.emitted()).dom().contains(s.addr_spec()),
{
    assert(s.emitted().last() == RegistryEvent::Left(s.addr_spec()));
}

/// Registration ordering, end to end: take any session that has not yet
/// closed, and any registry state reached by applying the session's own
/// events in order (possibly on top of a state built by other clients'
/// events). The client is registered in that state, so a `Broadcast` the
/// registry processes next — the client's own first frame included —
/// makes its enqueue attempt on this client's queue rather than losing it.
pub proof fn lemma_registration_ordering(
    s: &ReaderSession,
    m0: Map<u64, QueueModel>,
    p: Vec<u8>,
)
    requires
        s.wf(),
        !s.finished(),
    ensures
        ({
            let m = apply_events_map(m0, s.emitted());
            let after = apply_event_map(m, RegistryEvent::Broadcast(p));
            m.dom().contains(s.addr_spec()) && after.dom().contains(s.addr_spec()) && after[
                s.addr_spec()
            ] == deliver_one(m[s.addr_spec()], p@)
        }),
{
    assert(is_joined_for(s.emitted()[0], s.addr_spec()));
    assert forall|j: int| 0 < j < s.emitted().len() implies !is_left_for(
        #[trigger] s.emitted()[j],
        s.addr_spec(),
    ) by {
        assert(is_broadcast(s.emitted()[j]));
    }
    lemma_registration_before_first_frame(m0, s.emitted(), 0, s.addr_spec(), p);
}

} // verus!
