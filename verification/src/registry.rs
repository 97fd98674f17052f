//! The registry: single authoritative owner of the set of connected clients
//! and of the broadcast fan-out policy.
//!
//! All membership and broadcast operations arrive as [`RegistryEvent`]s and
//! are processed strictly one at a time through [`Registry::apply`], so the
//! client map is only ever touched by one logical thread of control. Each
//! client record holds a bounded outbound queue; a broadcast attempts a
//! non-blocking enqueue on every registered record and silently drops the
//! payload for any record whose queue is full — best-effort delivery is the
//! explicit backpressure policy.

use vstd::prelude::*;
use crate::codec::MAX_PAYLOAD_LEN;
use crate::codec::copy_payload;

verus! {

/// The one cross-component message type: a client joined with a fresh
/// outbound queue of the given capacity, a client left, or a payload is to
/// be fanned out to every registered client.
#[derive(Debug, PartialEq, Eq)]
pub enum RegistryEvent {
    Joined(u64, usize),
    Left(u64),
    Broadcast(Vec<u8>),
}

/// Mathematical model of one client's bounded outbound queue: the payloads
/// waiting to be written, oldest first, and the queue's capacity.
#[verifier::ext_equal]
pub ghost struct QueueModel {
    pub pending: Seq<Seq<u8>>,
    pub cap: nat,
}

/// A broadcast payload must fit in one wire frame; membership events carry
/// no payload and are always acceptable.
pub open spec fn event_ok(e: RegistryEvent) -> bool {
    match e {
        RegistryEvent::Broadcast(p) => p@.len() <= MAX_PAYLOAD_LEN,
        _ => true,
    }
}

/// One delivery attempt: enqueue the payload if the queue has room,
/// otherwise drop it for this client alone.
pub open spec fn deliver_one(q: QueueModel, p: Seq<u8>) -> QueueModel {
    if q.pending.len() < q.cap {
        QueueModel { pending: q.pending.push(p), cap: q.cap }
    } else {
        q
    }
}

/// The queue a client starts with: empty, with the given capacity.
pub open spec fn fresh_queue(cap: usize) -> QueueModel {
    QueueModel { pending: Seq::empty(), cap: cap as nat }
}

/// A broadcast reaches every registered client: same membership, and every
/// queue gets exactly one delivery attempt.
pub open spec fn broadcast_map(m: Map<u64, QueueModel>, p: Seq<u8>) -> Map<u64, QueueModel> {
    Map::new(|a: u64| m.dom().contains(a), |a: u64| deliver_one(m[a], p))
}

/// What one event does to the client map: `Joined` inserts or overwrites,
/// `Left` removes if present, `Broadcast` attempts delivery everywhere.
pub open spec fn apply_event_map(m: Map<u64, QueueModel>, e: RegistryEvent) -> Map<u64, QueueModel> {
    match e {
        RegistryEvent::Joined(a, c) => m.insert(a, fresh_queue(c)),
        RegistryEvent::Left(a) => m.remove(a),
        RegistryEvent::Broadcast(p) => broadcast_map(m, p@),
    }
}

/// Folds a whole arrival-ordered event sequence over the client map.
pub open spec fn apply_events_map(
    m: Map<u64, QueueModel>,
    es: Seq<RegistryEvent>,
) -> Map<u64, QueueModel>
    decreases es.len(),
{
    if es.len() == 0 {
        m
    } else {
        apply_event_map(apply_events_map(m, es.drop_last()), es.last())
    }
}

/// One connected client: its address and its bounded outbound queue.
struct ClientRecord {
    addr: u64,
    queue: Vec<Vec<u8>>,
    cap: usize,
}

/// The payload bytes of each queued message, oldest first.
spec fn payloads_of(q: Seq<Vec<u8>>) -> Seq<Seq<u8>> {
    Seq::new(q.len(), |i: int| q[i]@)
}

spec fn record_model(r: ClientRecord) -> QueueModel {
    QueueModel { pending: payloads_of(r.queue@), cap: r.cap as nat }
}

spec fn unique_addrs(rs: Seq<ClientRecord>) -> bool {
    forall|i: int, j: int| 0 <= i < j < rs.len() ==> rs[i].addr != rs[j].addr
}

spec fn addr_in(rs: Seq<ClientRecord>, a: u64) -> bool {
    exists|i: int| 0 <= i < rs.len() && rs[i].addr == a
}

spec fn bounded_payloads(rs: Seq<ClientRecord>) -> bool {
    forall|i: int, k: int|
        0 <= i < rs.len() && 0 <= k < rs[i].queue@.len() ==> rs[i].queue@[k]@.len()
            <= MAX_PAYLOAD_LEN
}

spec fn map_of(rs: Seq<ClientRecord>) -> Map<u64, QueueModel>
    decreases rs.len(),
{
    if rs.len() == 0 {
        Map::empty()
    } else {
        map_of(rs.drop_last()).insert(rs.last().addr, record_model(rs.last()))
    }
}

proof fn lemma_unique_drop_last(rs: Seq<ClientRecord>)
    requires
        unique_addrs(rs),
        rs.len() > 0,
    ensures
        unique_addrs(rs.drop_last()),
{
    let dl = rs.drop_last();
    assert forall|i: int, j: int| 0 <= i < j < dl.len() implies dl[i].addr != dl[j].addr by {
        assert(dl[i] == rs[i]);
        assert(dl[j] == rs[j]);
    }
}

proof fn lemma_map_of_dom(rs: Seq<ClientRecord>)
    ensures
        forall|a: u64| #[trigger] map_of(rs).dom().contains(a) <==> addr_in(rs, a),
    decreases rs.len(),
{
    if rs.len() > 0 {
        let dl = rs.drop_last();
        lemma_map_of_dom(dl);
        assert forall|a: u64| #[trigger] map_of(rs).dom().contains(a) <==> addr_in(rs, a) by {
            if map_of(rs).dom().contains(a) {
                if a == rs.last().addr {
                    assert(rs[rs.len() - 1].addr == a);
                } else {
                    assert(map_of(dl).dom().contains(a));
                    assert(addr_in(dl, a));
                    let i: int = choose|i: int| 0 <= i < dl.len() && dl[i].addr == a;
                    assert(dl[i] == rs[i]);
                    assert(rs[i].addr == a);
                }
                assert(addr_in(rs, a));
            }
            if addr_in(rs, a) {
                let i: int = choose|i: int| 0 <= i < rs.len() && rs[i].addr == a;
                if i < rs.len() - 1 {
                    assert(dl[i].addr == a);
                    assert(addr_in(dl, a));
                    assert(map_of(dl).dom().contains(a));
                } else {
                    assert(a == rs.last().addr);
                }
                assert(map_of(rs).dom().contains(a));
            }
        }
    }
}

proof fn lemma_map_of_at(rs: Seq<ClientRecord>, i: int)
    requires
        unique_addrs(rs),
        0 <= i < rs.len(),
    ensures
        map_of(rs).dom().contains(rs[i].addr),
        map_of(rs)[rs[i].addr] == record_model(rs[i]),
    decreases rs.len(),
{
    if i < rs.len() - 1 {
        let dl = rs.drop_last();
        lemma_unique_drop_last(rs);
        assert(dl[i] == rs[i]);
        lemma_map_of_at(dl, i);
        assert(rs.last().addr != rs[i].addr);
    }
}

proof fn lemma_map_of_remove(rs: Seq<ClientRecord>, i: int)
    requires
        unique_addrs(rs),
        0 <= i < rs.len(),
    ensures
        map_of(rs.remove(i)) == map_of(rs).remove(rs[i].addr),
        unique_addrs(rs.remove(i)),
        !addr_in(rs.remove(i), rs[i].addr),
    decreases rs.len(),
{
    let a = rs[i].addr;
    rs.remove_ensures(i);
    assert forall|k: int| 0 <= k < rs.remove(i).len() implies rs.remove(i)[k].addr != a by {
        if k < i {
            assert(rs.remove(i)[k] == rs[k]);
        } else {
            assert(rs.remove(i)[k] == rs[k + 1]);
        }
    }
    assert forall|k: int, l: int| 0 <= k < l < rs.remove(i).len() implies rs.remove(i)[k].addr
        != rs.remove(i)[l].addr by {
        let k0: int = if k < i {
            k
        } else {
            k + 1
        };
        let l0: int = if l < i {
            l
        } else {
            l + 1
        };
        assert(rs.remove(i)[k] == rs[k0]);
        assert(rs.remove(i)[l] == rs[l0]);
    }
    if i == rs.len() - 1 {
        assert(rs.remove(i) =~= rs.drop_last());
        lemma_map_of_dom(rs.drop_last());
        assert forall|j: int| 0 <= j < rs.drop_last().len() implies rs.drop_last()[j].addr
            != a by {
            assert(rs.drop_last()[j] == rs[j]);
        }
        assert(!addr_in(rs.drop_last(), a));
        assert(!map_of(rs.drop_last()).dom().contains(a));
        assert(map_of(rs).remove(a) =~~= map_of(rs.drop_last()));
    } else {
        let dl = rs.drop_last();
        lemma_unique_drop_last(rs);
        assert(dl[i] == rs[i]);
        lemma_map_of_remove(dl, i);
        assert(rs.remove(i).drop_last() =~= dl.remove(i));
        assert(rs.remove(i).last() == rs.last());
        assert(map_of(rs.remove(i)) == map_of(dl.remove(i)).insert(
            rs.last().addr,
            record_model(rs.last()),
        ));
        assert(rs.last().addr != a);
        assert(map_of(dl).remove(a).insert(rs.last().addr, record_model(rs.last())) =~~= map_of(
            dl,
        ).insert(rs.last().addr, record_model(rs.last())).remove(a));
    }
}

proof fn lemma_bounded_remove(rs: Seq<ClientRecord>, i: int)
    requires
        bounded_payloads(rs),
        0 <= i < rs.len(),
    ensures
        bounded_payloads(rs.remove(i)),
{
    rs.remove_ensures(i);
    let ds = rs.remove(i);
    assert forall|i2: int, k: int|
        0 <= i2 < ds.len() && 0 <= k < ds[i2].queue@.len() implies ds[i2].queue@[k]@.len()
        <= MAX_PAYLOAD_LEN by {
        if i2 < i {
            assert(ds[i2] == rs[i2]);
        } else {
            assert(ds[i2] == rs[i2 + 1]);
        }
    }
}

proof fn lemma_map_of_push(rs: Seq<ClientRecord>, r: ClientRecord)
    ensures
        map_of(rs.push(r)) == map_of(rs).insert(r.addr, record_model(r)),
{
    assert(rs.push(r).drop_last() =~= rs);
    assert(rs.push(r).last() == r);
}

proof fn lemma_map_of_pointwise(rs: Seq<ClientRecord>, us: Seq<ClientRecord>, p: Seq<u8>)
    requires
        unique_addrs(rs),
        us.len() == rs.len(),
        forall|k: int| 0 <= k < rs.len() ==> (#[trigger] us[k]).addr == rs[k].addr,
        forall|k: int|
            0 <= k < rs.len() ==> record_model(#[trigger] us[k]) == deliver_one(
                record_model(rs[k]),
                p,
            ),
    ensures
        unique_addrs(us),
        map_of(us) == broadcast_map(map_of(rs), p),
{
    lemma_map_of_dom(rs);
    lemma_map_of_dom(us);
    assert forall|a: u64| map_of(us).dom().contains(a) <==> map_of(rs).dom().contains(a) by {
        if addr_in(rs, a) {
            let i: int = choose|i: int| 0 <= i < rs.len() && rs[i].addr == a;
            assert(us[i].addr == a);
        }
        if addr_in(us, a) {
            let i: int = choose|i: int| 0 <= i < us.len() && us[i].addr == a;
            assert(rs[i].addr == a);
        }
    }
    assert forall|a: u64| map_of(rs).dom().contains(a) implies map_of(us)[a] == deliver_one(
        map_of(rs)[a],
        p,
    ) by {
        let i: int = choose|i: int| 0 <= i < rs.len() && rs[i].addr == a;
        lemma_map_of_at(rs, i);
        lemma_map_of_at(us, i);
    }
    assert(map_of(us) =~~= broadcast_map(map_of(rs), p));
}

proof fn lemma_map_of_card(rs: Seq<ClientRecord>)
    requires
        unique_addrs(rs),
    ensures
        map_of(rs).dom().finite(),
        map_of(rs).dom().len() == rs.len(),
    decreases rs.len(),
{
    if rs.len() == 0 {
        assert(map_of(rs).dom() =~= Set::<u64>::empty());
    } else {
        let dl = rs.drop_last();
        lemma_unique_drop_last(rs);
        lemma_map_of_card(dl);
        lemma_map_of_dom(dl);
        assert forall|j: int| 0 <= j < dl.len() implies dl[j].addr != rs.last().addr by {
            assert(dl[j] == rs[j]);
        }
        assert(!map_of(dl).dom().contains(rs.last().addr));
        assert(map_of(rs).dom() =~= map_of(dl).dom().insert(rs.last().addr));
    }
}

/// The authoritative set of connected clients. Its abstract value is a map
/// from client address to that client's queue model; at most one record
/// exists per address at any time.
pub struct Registry {
    records: Vec<ClientRecord>,
}

impl View for Registry {
    type V = Map<u64, QueueModel>;

    closed spec fn view(&self) -> Map<u64, QueueModel> {
        map_of(self.records@)
    }
}

impl Registry {
    /// Addresses are unique and every queued payload fits in one frame.
    pub closed spec fn wf(&self) -> bool {
        unique_addrs(self.records@) && bounded_payloads(self.records@)
    }

    /// An empty registry: no clients.
    pub fn new() -> (r: Registry)
        ensures
            r.wf(),
            r@ == Map::<u64, QueueModel>::empty(),
    {
        Registry { records: Vec::new() }
    }

    fn find_index(&self, addr: u64) -> (r: Option<usize>)
        ensures
            (r matches Some(i) ==> i < self.records@.len() && self.records@[i as int].addr
                == addr),
            r is None ==> !addr_in(self.records@, addr),
    {
        let mut i: usize = 0;
        while i < self.records.len()
            invariant
                i <= self.records@.len(),
                forall|j: int| 0 <= j < i ==> self.records@[j].addr != addr,
            decreases self.records@.len() - i,
        {
            if self.records[i].addr == addr {
                return Some(i);
            }
            i = i + 1;
        }
        None
    }

    /// Whether a record for this address currently exists.
    pub fn is_registered(&self, addr: u64) -> (r: bool)
        ensures
            r == self@.dom().contains(addr),
    {
        proof {
            lemma_map_of_dom(self.records@);
        }
        let found = self.find_index(addr);
        match found {
            Some(i) => {
                proof {
                    assert(self.records@[i as int].addr == addr);
                    assert(addr_in(self.records@, addr));
                }
                true
            },
            None => false,
        }
    }

    /// How many payloads wait in this client's outbound queue.
    pub fn pending_len(&self, addr: u64) -> (r: usize)
        requires
            self.wf(),
            self@.dom().contains(addr),
        ensures
            r == self@[addr].pending.len(),
    {
        proof {
            lemma_map_of_dom(self.records@);
        }
        let found = self.find_index(addr);
        match found {
            Some(i) => {
                proof {
                    lemma_map_of_at(self.records@, i as int);
                }
                self.records[i].queue.len()
            },
            None => {
                proof {
                    assert(false);
                }
                0
            },
        }
    }

    /// How many clients are currently registered.
    pub fn client_count(&self) -> (r: usize)
        requires
            self.wf(),
        ensures
            r == self@.dom().len(),
            self@.dom().finite(),
    {
        proof {
            lemma_map_of_card(self.records@);
        }
        self.records.len()
    }

    /// The one entry point: processes a single event, in arrival order.
    ///
    /// `Joined` inserts or overwrites the record for the address with a
    /// fresh empty queue; `Left` removes the record if present and is a
    /// silent no-op otherwise; `Broadcast` attempts a non-blocking enqueue
    /// on every registered record, dropping the payload for any record
    /// whose queue is full.
    pub fn apply(&mut self, event: RegistryEvent)
        requires
            old(self).wf(),
            event_ok(event),
        ensures
            final(self).wf(),
            final(self)@ == apply_event_map(old(self)@, event),
    {
        match event {
            RegistryEvent::Joined(addr, cap) => {
                let found = self.find_index(addr);
                match found {
                    Some(i) => {
                        proof {
                            lemma_map_of_remove(self.records@, i as int);
                            lemma_bounded_remove(self.records@, i as int);
                        }
                        let _ = self.records.remove(i);
                    },
                    None => {
                        proof {
                            lemma_map_of_dom(self.records@);
                            assert(!old(self)@.dom().contains(addr));
                            assert(old(self)@.remove(addr) =~~= old(self)@);
                        }
                    },
                }
                let ghost mid = self.records@;
                assert(unique_addrs(mid));
                assert(bounded_payloads(mid));
                assert(!addr_in(mid, addr));
                assert(map_of(mid) == old(self)@.remove(addr));
                let rec = ClientRecord { addr, queue: Vec::new(), cap };
                proof {
                    lemma_map_of_push(mid, rec);
                    assert(payloads_of(rec.queue@) =~= Seq::<Seq<u8>>::empty());
                    assert(record_model(rec) =~~= fresh_queue(cap));
                }
                self.records.push(rec);
                proof {
                    assert forall|k: int, l: int|
                        0 <= k < l < self.records@.len() implies self.records@[k].addr
                        != self.records@[l].addr by {
                        if l == self.records@.len() - 1 {
                            assert(self.records@[k] == mid[k]);
                            if mid[k].addr == addr {
                                assert(addr_in(mid, addr));
                            }
                        } else {
                            assert(self.records@[k] == mid[k]);
                            assert(self.records@[l] == mid[l]);
                        }
                    }
                    assert forall|i2: int, k: int|
                        0 <= i2 < self.records@.len() && 0 <= k
                            < self.records@[i2].queue@.len() implies self.records@[i2].queue@[k]@.len()
                        <= MAX_PAYLOAD_LEN by {
                        if i2 < self.records@.len() - 1 {
                            assert(self.records@[i2] == mid[i2]);
                        }
                    }
                    assert(self@ =~~= old(self)@.insert(addr, fresh_queue(cap)));
                }
            },
            RegistryEvent::Left(addr) => {
                let found = self.find_index(addr);
                match found {
                    Some(i) => {
                        proof {
                            lemma_map_of_remove(self.records@, i as int);
                            lemma_bounded_remove(self.records@, i as int);
                        }
                        let _ = self.records.remove(i);
                    },
                    None => {
                        proof {
                            lemma_map_of_dom(self.records@);
                            assert(!old(self)@.dom().contains(addr));
                            assert(old(self)@.remove(addr) =~~= old(self)@);
                        }
                    },
                }
            },
            RegistryEvent::Broadcast(p) => {
                let ghost rs0 = self.records@;
                let mut updated: Vec<ClientRecord> = Vec::new();
                while self.records.len() > 0
                    invariant
                        updated@.len() + self.records@.len() == rs0.len(),
                        self.records@ == rs0.subrange(updated@.len() as int, rs0.len() as int),
                        forall|k: int|
                            0 <= k < updated@.len() ==> (#[trigger] updated@[k]).addr
                                == rs0[k].addr,
                        forall|k: int|
                            0 <= k < updated@.len() ==> record_model(#[trigger] updated@[k])
                                == deliver_one(record_model(rs0[k]), p@),
                        unique_addrs(rs0),
                        bounded_payloads(rs0),
                        p@.len() <= MAX_PAYLOAD_LEN,
                    decreases self.records@.len(),
                {
                    let ghost k: int = updated@.len() as int;
                    assert(self.records@[0] == rs0[k]);
                    let mut rec = self.records.remove(0);
                    assert(rec == rs0[k]);
                    if rec.queue.len() < rec.cap {
                        let pc = copy_payload(&p);
                        rec.queue.push(pc);
                        proof {
                            assert(payloads_of(rec.queue@) =~= payloads_of(rs0[k].queue@).push(
                                p@,
                            ));
                            assert(record_model(rec) =~~= deliver_one(record_model(rs0[k]), p@));
                        }
                    } else {
                        proof {
                            assert(record_model(rec) =~~= deliver_one(record_model(rs0[k]), p@));
                        }
                    }
                    updated.push(rec);
                    proof {
                        assert(self.records@ =~= rs0.subrange(
                            updated@.len() as int,
                            rs0.len() as int,
                        ));
                    }
                }
                proof {
                    lemma_map_of_pointwise(rs0, updated@, p@);
                    assert forall|i2: int, k2: int|
                        0 <= i2 < updated@.len() && 0 <= k2
                            < updated@[i2].queue@.len() implies updated@[i2].queue@[k2]@.len()
                        <= MAX_PAYLOAD_LEN by {
                        let qm = record_model(updated@[i2]);
                        assert(qm == deliver_one(record_model(rs0[i2]), p@));
                        assert(updated@[i2].queue@[k2]@ == qm.pending[k2]);
                        let base = record_model(rs0[i2]);
                        assert(updated@[i2].queue@.len() == qm.pending.len());
                        assert(base.pending.len() == rs0[i2].queue@.len());
                        if base.pending.len() < base.cap {
                            assert(qm.pending == base.pending.push(p@));
                            assert(qm.pending.len() == base.pending.len() + 1);
                            if k2 < rs0[i2].queue@.len() {
                                assert(qm.pending[k2] == base.pending[k2]);
                                assert(base.pending[k2] == rs0[i2].queue@[k2]@);
                            } else {
                                assert(k2 == base.pending.len());
                                assert(qm.pending[k2] == p@);
                            }
                        } else {
                            assert(qm == base);
                            assert(qm.pending[k2] == rs0[i2].queue@[k2]@);
                        }
                    }
                }
                self.records = updated;
            },
        }
    }

    /// Takes the oldest payload from this client's outbound queue, if the
    /// client is registered and its queue is non-empty; otherwise changes
    /// nothing. This is the writer side's dequeue.
    pub fn pop_outbound(&mut self, addr: u64) -> (r: Option<Vec<u8>>)
        requires
            old(self).wf(),
        ensures
            final(self).wf(),
            (if old(self)@.dom().contains(addr) && old(self)@[addr].pending.len() > 0 {
                r matches Some(p) && p@ == old(self)@[addr].pending[0] && p@.len()
                    <= MAX_PAYLOAD_LEN && final(self)@ == old(self)@.insert(
                    addr,
                    (QueueModel {
                        pending: old(self)@[addr].pending.drop_first(),
                        cap: old(self)@[addr].cap,
                    }),
                )
            } else {
                r is None && final(self)@ == old(self)@
            }),
    {
        proof {
            lemma_map_of_dom(self.records@);
        }
        let found = self.find_index(addr);
        match found {
            None => {
                proof {
                    assert(!old(self)@.dom().contains(addr));
                }
                None
            },
            Some(i) => {
                proof {
                    lemma_map_of_at(self.records@, i as int);
                    lemma_map_of_remove(self.records@, i as int);
                    lemma_bounded_remove(self.records@, i as int);
                }
                let ghost rs0 = self.records@;
                let mut rec = self.records.remove(i);
                assert(rec == rs0[i as int]);
                if rec.queue.len() == 0 {
                    proof {
                        lemma_map_of_push(self.records@, rec);
                    }
                    self.records.push(rec);
                    proof {
                        assert(old(self)@[addr].pending.len() == 0);
                        assert(self.records@.drop_last() =~= rs0.remove(i as int));
                        lemma_wf_reinsert(rs0, i as int, self.records@);
                        assert(self@ =~~= old(self)@);
                    }
                    None
                } else {
                    let payload = rec.queue.remove(0);
                    proof {
                        rs0[i as int].queue@.remove_ensures(0);
                        assert(payloads_of(rec.queue@) =~= payloads_of(
                            rs0[i as int].queue@,
                        ).drop_first());
                        lemma_map_of_push(self.records@, rec);
                    }
                    self.records.push(rec);
                    proof {
                        assert(self.records@.drop_last() =~= rs0.remove(i as int));
                        assert forall|k: int|
                            0 <= k < self.records@.last().queue@.len() implies (
                        #[trigger] self.records@.last().queue@[k])@.len() <= MAX_PAYLOAD_LEN by {
                            assert(self.records@.last().queue@[k] == rs0[i as int].queue@[k + 1]);
                        }
                        lemma_wf_reinsert(rs0, i as int, self.records@);
                        assert(self@ =~~= old(self)@.insert(
                            addr,
                            (QueueModel {
                                pending: old(self)@[addr].pending.drop_first(),
                                cap: old(self)@[addr].cap,
                            }),
                        ));
                    }
                    Some(payload)
                }
            },
        }
    }
}

proof fn lemma_wf_reinsert(rs0: Seq<ClientRecord>, i: int, rs1: Seq<ClientRecord>)
    requires
        unique_addrs(rs0),
        bounded_payloads(rs0),
        0 <= i < rs0.len(),
        rs1.len() == rs0.len(),
        rs1.drop_last() == rs0.remove(i),
        rs1.last().addr == rs0[i].addr,
        forall|k: int|
            0 <= k < rs1.last().queue@.len() ==> (#[trigger] rs1.last().queue@[k])@.len()
                <= MAX_PAYLOAD_LEN,
    ensures
        unique_addrs(rs1),
        bounded_payloads(rs1),
{
    lemma_map_of_remove(rs0, i);
    lemma_bounded_remove(rs0, i);
    let dl = rs1.drop_last();
    assert forall|k: int, l: int| 0 <= k < l < rs1.len() implies rs1[k].addr != rs1[l].addr by {
        if l < rs1.len() - 1 {
            assert(rs1[k] == dl[k]);
            assert(rs1[l] == dl[l]);
        } else {
            assert(rs1[k] == dl[k]);
            if dl[k].addr == rs0[i].addr {
                assert(addr_in(dl, rs0[i].addr));
            }
        }
    }
    assert forall|i2: int, k: int|
        0 <= i2 < rs1.len() && 0 <= k < rs1[i2].queue@.len() implies rs1[i2].queue@[k]@.len()
        <= MAX_PAYLOAD_LEN by {
        if i2 < rs1.len() - 1 {
            assert(rs1[i2] == dl[i2]);
        } else {
            assert(rs1[i2] == rs1.last());
        }
    }
}

/// Disconnect idempotence: `Left` for an address with no record changes
/// nothing, and applying `Left` twice has the same effect as applying it
/// once.
pub proof fn lemma_left_idempotent(m: Map<u64, QueueModel>, a: u64)
    ensures
        !m.dom().contains(a) ==> apply_event_map(m, RegistryEvent::Left(a)) == m,
        apply_event_map(apply_event_map(m, RegistryEvent::Left(a)), RegistryEvent::Left(a))
            == apply_event_map(m, RegistryEvent::Left(a)),
{
    if !m.dom().contains(a) {
        assert(m.remove(a) =~~= m);
    }
    assert(m.remove(a).remove(a) =~~= m.remove(a));
}

/// Fan-out correctness: a broadcast leaves the membership unchanged and
/// makes exactly one enqueue attempt on every registered record — the
/// payload lands at the back of every queue with room and is dropped, for
/// that client alone, wherever the queue is full.
pub proof fn lemma_broadcast_fanout(m: Map<u64, QueueModel>, p: Vec<u8>)
    ensures
        apply_event_map(m, RegistryEvent::Broadcast(p)).dom() == m.dom(),
        forall|a: u64| #[trigger]
            m.dom().contains(a) ==> apply_event_map(m, RegistryEvent::Broadcast(p))[a]
                == deliver_one(m[a], p@),
        forall|a: u64| #[trigger]
            m.dom().contains(a) && m[a].pending.len() < m[a].cap ==> apply_event_map(
                m,
                RegistryEvent::Broadcast(p),
            )[a].pending == m[a].pending.push(p@),
        forall|a: u64| #[trigger]
            m.dom().contains(a) && m[a].pending.len() >= m[a].cap ==> apply_event_map(
                m,
                RegistryEvent::Broadcast(p),
            )[a] == m[a],
{
    assert(broadcast_map(m, p@).dom() =~= m.dom());
}

/// Slow consumer isolation: a client whose queue is saturated takes no
/// delivery and loses nothing, while every other registered client with
/// room still receives the payload — one stalled consumer never affects
/// delivery to the rest.
pub proof fn lemma_slow_consumer_isolated(m: Map<u64, QueueModel>, p: Vec<u8>, slow: u64)
    requires
        m.dom().contains(slow),
        m[slow].pending.len() >= m[slow].cap,
    ensures
        apply_event_map(m, RegistryEvent::Broadcast(p)).dom() == m.dom(),
        apply_event_map(m, RegistryEvent::Broadcast(p))[slow] == m[slow],
        forall|a: u64| #[trigger]
            m.dom().contains(a) && m[a].pending.len() < m[a].cap ==> apply_event_map(
                m,
                RegistryEvent::Broadcast(p),
            )[a].pending == m[a].pending.push(p@),
{
    lemma_broadcast_fanout(m, p);
}

/// Whether this event is a `Joined` for address `a`.
pub open spec fn is_joined_for(e: RegistryEvent, a: u64) -> bool {
    e matches RegistryEvent::Joined(x, _) && x == a
}

/// Whether this event is a `Left` for address `a`.
pub open spec fn is_left_for(e: RegistryEvent, a: u64) -> bool {
    e matches RegistryEvent::Left(x) && x == a
}

/// Whether this event is a `Left` for any address.
pub open spec fn is_left(e: RegistryEvent) -> bool {
    e matches RegistryEvent::Left(_)
}

/// Whether this event is a `Broadcast`.
pub open spec fn is_broadcast(e: RegistryEvent) -> bool {
    e matches RegistryEvent::Broadcast(_)
}

/// The payload a `Broadcast` carries; empty for membership events.
pub open spec fn payload_of(e: RegistryEvent) -> Seq<u8> {
    match e {
        RegistryEvent::Broadcast(p) => p@,
        _ => Seq::empty(),
    }
}

/// Registration persists: once a `Joined` for an address has been applied,
/// the address stays registered through any later events so long as no
/// `Left` for it arrives.
pub proof fn lemma_joined_persists(
    m0: Map<u64, QueueModel>,
    es: Seq<RegistryEvent>,
    i: int,
    a: u64,
)
    requires
        0 <= i < es.len(),
        is_joined_for(es[i], a),
        forall|j: int| i < j < es.len() ==> !is_left_for(#[trigger] es[j], a),
    ensures
        apply_events_map(m0, es).dom().contains(a),
    decreases es.len(),
{
    let dl = es.drop_last();
    let m1 = apply_events_map(m0, dl);
    if i == es.len() - 1 {
    } else {
        assert(dl[i] == es[i]);
        assert forall|j: int| i < j < dl.len() implies !is_left_for(#[trigger] dl[j], a) by {
            assert(dl[j] == es[j]);
        }
        lemma_joined_persists(m0, dl, i, a);
        match es.last() {
            RegistryEvent::Joined(_, _) => {},
            RegistryEvent::Left(x) => {
                assert(!is_left_for(es[es.len() - 1], a));
                assert(x != a);
            },
            RegistryEvent::Broadcast(p) => {
                assert(broadcast_map(m1, p@).dom() =~= m1.dom());
            },
        }
    }
}

/// Registration ordering: a client's own first frame is never lost to a
/// race with its own `Joined`. If the `Joined` for an address stands
/// earlier in the serialized event stream than a `Broadcast`, with no
/// `Left` for that address in between, then at the moment the broadcast is
/// processed the address is registered and its queue receives the enqueue
/// attempt.
pub proof fn lemma_registration_before_first_frame(
    m0: Map<u64, QueueModel>,
    prefix: Seq<RegistryEvent>,
    i: int,
    a: u64,
    p: Vec<u8>,
)
    requires
        0 <= i < prefix.len(),
        is_joined_for(prefix[i], a),
        forall|j: int| i < j < prefix.len() ==> !is_left_for(#[trigger] prefix[j], a),
    ensures
        ({
            let m = apply_events_map(m0, prefix);
            let after = apply_event_map(m, RegistryEvent::Broadcast(p));
            m.dom().contains(a) && after.dom().contains(a) && after[a] == deliver_one(m[a], p@)
        }),
{
    lemma_joined_persists(m0, prefix, i, a);
    let m = apply_events_map(m0, prefix);
    assert(broadcast_map(m, p@).dom() =~= m.dom());
}

} // verus!
