//! The connection registry: it owns all active peer connections, allocates
//! opaque integer handles, files inbound events into per-stream FIFO queues,
//! and queues outbound envelopes for the transport to pick up.
//!
//! The registry itself performs no I/O. The surrounding program's transport
//! callbacks feed it through `accept_connection`, `bind` and `deliver`, and a
//! transmit loop drains `take_outbox`; everything in between — handle
//! allocation, demultiplexing, stream-id parity, drain-on-poll — is verified
//! here. Lookups under unknown handles or streams degrade to no-ops, never
//! errors: teardown races with late transport callbacks are expected.

use vstd::prelude::*;

verus! {

/// Opaque identifier of one physical peer connection. Handle 0 is reserved as
/// "invalid/unset" and is never allocated.
#[derive(Clone, Copy, PartialEq, Eq, Structural)]
pub struct NetworkHandle(pub i32);

impl NetworkHandle {
    /// The reserved never-allocated handle.
    pub fn invalid() -> (h: NetworkHandle)
        ensures
            h.0 == 0,
    {
        NetworkHandle(0)
    }

    /// Rebuild a handle from the raw correlator an event carried.
    pub fn from_correlator(corr: i32) -> (h: NetworkHandle)
        ensures
            h.0 == corr,
    {
        NetworkHandle(corr)
    }

    /// The raw integer behind the handle.
    pub fn id(&self) -> (r: i32)
        ensures
            r == self.0,
    {
        self.0
    }
}

/// One wire envelope: which logical stream the message belongs to, and the
/// message itself.
#[derive(Clone, Debug, PartialEq)]
pub struct NetData<MSG> {
    pub stream_id: i32,
    pub msg: MSG,
}

/// A request toward the network layer, as carried by `NetReq`.
#[derive(Clone)]
pub enum NetReqType<MSG> {
    Listen(String),
    Connect(String),
    Close,
    Send(NetData<MSG>),
}

/// A correlated network request.
#[derive(Clone)]
pub struct NetReq<MSG> {
    pub correlator: i32,
    pub req: NetReqType<MSG>,
}

/// An inbound event, queued under one (handle, stream) pair until polled.
#[derive(Clone, Debug, PartialEq)]
pub enum NetUpdate<MSG> {
    ListenFail,
    ConnectFail,
    NewPeer(i32),
    Data(NetData<MSG>),
    Closed,
}

/// The index of the first pair keyed `k`, or `-1` when no pair is.
spec fn assoc_index<V>(s: Seq<(i32, V)>, k: i32) -> int
    decreases s.len(),
{
    if s.len() == 0 {
        -1
    } else if s[0].0 == k {
        0
    } else {
        let r = assoc_index(s.drop_first(), k);
        if r < 0 {
            -1
        } else {
            r + 1
        }
    }
}

/// `assoc_index` finds exactly the first occurrence of `k`, if any.
proof fn lemma_assoc_index_props<V>(s: Seq<(i32, V)>, k: i32)
    ensures
        -1 <= assoc_index(s, k) < s.len(),
        assoc_index(s, k) >= 0 ==> s[assoc_index(s, k)].0 == k,
        forall|j: int|
            0 <= j < s.len() && (assoc_index(s, k) == -1 || j < assoc_index(s, k))
                ==> (#[trigger] s[j]).0 != k,
    decreases s.len(),
{
    if s.len() > 0 && s[0].0 != k {
        lemma_assoc_index_props(s.drop_first(), k);
        assert forall|j: int|
            0 <= j < s.len() && (assoc_index(s, k) == -1 || j < assoc_index(s, k)) implies (
        #[trigger] s[j]).0 != k by {
            if j > 0 {
                assert(s.drop_first()[j - 1] == s[j]);
            }
        }
    }
}

/// Conversely, a first occurrence pins `assoc_index` down.
proof fn lemma_assoc_index_of_first<V>(s: Seq<(i32, V)>, k: i32, i: int)
    requires
        0 <= i < s.len(),
        s[i].0 == k,
        forall|j: int| 0 <= j < i ==> (#[trigger] s[j]).0 != k,
    ensures
        assoc_index(s, k) == i,
{
    lemma_assoc_index_props(s, k);
}

/// Two sequences with the same keys in the same order index identically.
proof fn lemma_assoc_index_same_keys<V>(s: Seq<(i32, V)>, t: Seq<(i32, V)>, k: i32)
    requires
        s.len() == t.len(),
        forall|j: int| 0 <= j < s.len() ==> (#[trigger] s[j]).0 == (#[trigger] t[j]).0,
    ensures
        assoc_index(s, k) == assoc_index(t, k),
    decreases s.len(),
{
    if s.len() > 0 {
        if s[0].0 != k {
            lemma_assoc_index_same_keys(s.drop_first(), t.drop_first(), k);
            assert(forall|j: int|
                0 <= j < s.len() - 1 ==> (#[trigger] s.drop_first()[j]) == s[j + 1]);
            assert(forall|j: int|
                0 <= j < t.len() - 1 ==> (#[trigger] t.drop_first()[j]) == t[j + 1]);
        }
    }
}

/// Appending a pair under a key that is absent makes that pair findable and
/// leaves every other key's index alone.
proof fn lemma_assoc_index_push<V>(s: Seq<(i32, V)>, k: i32, v: V)
    requires
        assoc_index(s, k) == -1,
    ensures
        assoc_index(s.push((k, v)), k) == s.len(),
        forall|k2: i32| k2 != k ==> #[trigger] assoc_index(s.push((k, v)), k2) == assoc_index(s, k2),
    decreases s.len(),
{
    let t = s.push((k, v));
    if s.len() == 0 {
        assert(t.len() == 1 && t[0].0 == k);
        assert(t.drop_first().len() == 0);
        assert forall|k2: i32| k2 != k implies #[trigger] assoc_index(t, k2) == assoc_index(
            s,
            k2,
        ) by {
            assert(assoc_index(t.drop_first(), k2) == -1);
        }
    } else {
        lemma_assoc_index_props(s.drop_first(), k);
        lemma_assoc_index_push(s.drop_first(), k, v);
        assert(t.drop_first() =~= s.drop_first().push((k, v)));
        assert forall|k2: i32| k2 != k implies #[trigger] assoc_index(t, k2) == assoc_index(
            s,
            k2,
        ) by {
            assert(assoc_index(t.drop_first(), k2) == assoc_index(s.drop_first(), k2));
            assert(t[0] == s[0]);
        }
    }
}

/// The per-connection record: its role, whether a transport data connection is
/// currently bound, the per-stream queues of inbound events, and the counter
/// from which new stream ids are issued.
pub struct PeerInfo<MSG> {
    is_listen: bool,
    is_bound: bool,
    received_msgs: Vec<(i32, Vec<NetUpdate<MSG>>)>,
    next_stream_id: i32,
}

impl<MSG> PeerInfo<MSG> {
    /// Whether this record was created by `listen` (or accepted by a listener).
    pub closed spec fn is_listener(self) -> bool {
        self.is_listen
    }

    /// Whether a transport data connection is currently bound to this record.
    pub closed spec fn is_bound_spec(self) -> bool {
        self.is_bound
    }

    /// The next stream id this record would issue.
    pub closed spec fn next_sid(self) -> int {
        self.next_stream_id as int
    }

    /// The events queued under `stream_id`, oldest first.
    pub closed spec fn queue_view(self, stream_id: i32) -> Seq<NetUpdate<MSG>> {
        let i = assoc_index(self.received_msgs@, stream_id);
        if i >= 0 {
            self.received_msgs@[i].1@
        } else {
            Seq::empty()
        }
    }

    /// Stream keys are unique, and the stream-id counter respects the parity
    /// rule: listeners issue odd ids, connectors even ones.
    pub closed spec fn wf(self) -> bool {
        &&& forall|i: int, j: int|
            0 <= i < j < self.received_msgs@.len() ==> (#[trigger] self.received_msgs@[i]).0 != (
            #[trigger] self.received_msgs@[j]).0
        &&& self.next_stream_id >= 1
        &&& self.next_stream_id % 2 == (if self.is_listen {
            1i32
        } else {
            0i32
        })
    }

    /// A fresh record: no queued events, no bound connection, and the stream-id
    /// counter started on the side's own parity (listeners at 1, connectors at 2).
    fn new(is_listen: bool) -> (r: Self)
        ensures
            r.wf(),
            r.is_listener() == is_listen,
            !r.is_bound_spec(),
            r.next_sid() == (if is_listen {
                1int
            } else {
                2int
            }),
            forall|sid: i32| #[trigger] r.queue_view(sid) == Seq::<NetUpdate<MSG>>::empty(),
    {
        let r = Self {
            is_listen,
            is_bound: false,
            received_msgs: Vec::new(),
            next_stream_id: if is_listen {
                1
            } else {
                2
            },
        };
        proof {
            assert forall|sid: i32| #[trigger] r.queue_view(sid) == Seq::<
                NetUpdate<MSG>,
            >::empty() by {
                assert(assoc_index(r.received_msgs@, sid) == -1);
            }
        }
        r
    }

    /// Find the queue slot of `stream_id`, if one exists yet.
    fn find_stream(&self, stream_id: i32) -> (r: Option<usize>)
        ensures
            match r {
                Some(i) => i == assoc_index(self.received_msgs@, stream_id),
                None => assoc_index(self.received_msgs@, stream_id) == -1,
            },
    {
        let n: usize = self.received_msgs.len();
        let mut i: usize = 0;
        while i < n
            invariant
                0 <= i <= n == self.received_msgs@.len(),
                forall|j: int| 0 <= j < i ==> (#[trigger] self.received_msgs@[j]).0 != stream_id,
            decreases n - i,
        {
            if self.received_msgs[i].0 == stream_id {
                proof {
                    lemma_assoc_index_of_first(self.received_msgs@, stream_id, i as int);
                }
                return Some(i);
            }
            i = i + 1;
        }
        proof {
            lemma_assoc_index_props(self.received_msgs@, stream_id);
        }
        None
    }

    /// File one inbound event at the tail of its stream's queue, creating the
    /// queue on first use.
    fn receive(&mut self, stream_id: i32, upd: NetUpdate<MSG>)
        requires
            old(self).wf(),
        ensures
            final(self).wf(),
            final(self).queue_view(stream_id) == old(self).queue_view(stream_id).push(upd),
            forall|sid: i32|
                sid != stream_id ==> #[trigger] final(self).queue_view(sid) == old(
                    self,
                ).queue_view(sid),
            final(self).is_listener() == old(self).is_listener(),
            final(self).is_bound_spec() == old(self).is_bound_spec(),
            final(self).next_sid() == old(self).next_sid(),
    {
        let ghost s0 = self.received_msgs@;
        match self.find_stream(stream_id) {
            Some(i) => {
                proof {
                    lemma_assoc_index_props(s0, stream_id);
                }
                let q: &mut Vec<NetUpdate<MSG>> = &mut self.received_msgs[i].1;
                q.push(upd);
                proof {
                    let s1 = self.received_msgs@;
                    assert forall|j: int| 0 <= j < s0.len() implies (#[trigger] s1[j]).0 == (
                    #[trigger] s0[j]).0 by {}
                    assert forall|sid: i32|
                        sid != stream_id implies #[trigger] final(self).queue_view(sid) == old(
                        self,
                    ).queue_view(sid) by {
                        lemma_assoc_index_same_keys(s0, s1, sid);
                        lemma_assoc_index_props(s0, sid);
                        let ix = assoc_index(s0, sid);
                        if ix >= 0 {
                            assert(ix != i as int);
                            assert(s1[ix] == s0[ix]);
                        }
                        assert(final(self).queue_view(sid) =~= old(self).queue_view(sid));
                    }
                    assert(final(self).queue_view(stream_id) =~= old(self).queue_view(
                        stream_id,
                    ).push(upd)) by {
                        lemma_assoc_index_same_keys(s0, s1, stream_id);
                    }
                }
            },
            None => {
                proof {
                    lemma_assoc_index_props(s0, stream_id);
                }
                let mut q: Vec<NetUpdate<MSG>> = Vec::new();
                q.push(upd);
                self.received_msgs.push((stream_id, q));
                proof {
                    let s1 = self.received_msgs@;
                    let qv = s1[s0.len() as int].1;
                    lemma_assoc_index_push(s0, stream_id, qv);
                    assert(s1 =~= s0.push((stream_id, qv)));
                    assert forall|sid: i32|
                        sid != stream_id implies #[trigger] final(self).queue_view(sid) == old(
                        self,
                    ).queue_view(sid) by {
                        lemma_assoc_index_props(s0, sid);
                        let ix = assoc_index(s0, sid);
                        if ix >= 0 {
                            assert(s1[ix] == s0[ix]);
                        }
                        assert(final(self).queue_view(sid) =~= old(self).queue_view(sid));
                    }
                    assert(final(self).queue_view(stream_id) =~= old(self).queue_view(
                        stream_id,
                    ).push(upd)) by {
                        lemma_assoc_index_of_first(s1, stream_id, s0.len() as int);
                    }
                    assert forall|i: int, j: int|
                        0 <= i < j < s1.len() implies (#[trigger] s1[i]).0 != (
                    #[trigger] s1[j]).0 by {
                        if j == s1.len() - 1 {
                            lemma_assoc_index_props(s0, stream_id);
                        }
                    }
                }
            },
        }
    }

    /// Drain and return every event queued under `stream_id`, oldest first.
    fn take_queue(&mut self, stream_id: i32) -> (r: Vec<NetUpdate<MSG>>)
        requires
            old(self).wf(),
        ensures
            final(self).wf(),
            r@ == old(self).queue_view(stream_id),
            final(self).queue_view(stream_id) == Seq::<NetUpdate<MSG>>::empty(),
            forall|sid: i32|
                sid != stream_id ==> #[trigger] final(self).queue_view(sid) == old(
                    self,
                ).queue_view(sid),
            final(self).is_listener() == old(self).is_listener(),
            final(self).is_bound_spec() == old(self).is_bound_spec(),
            final(self).next_sid() == old(self).next_sid(),
    {
        let ghost s0 = self.received_msgs@;
        match self.find_stream(stream_id) {
            Some(i) => {
                proof {
                    lemma_assoc_index_props(s0, stream_id);
                }
                let mut out: Vec<NetUpdate<MSG>> = Vec::new();
                let q: &mut Vec<NetUpdate<MSG>> = &mut self.received_msgs[i].1;
                core::mem::swap(q, &mut out);
                proof {
                    let s1 = self.received_msgs@;
                    assert forall|j: int| 0 <= j < s0.len() implies (#[trigger] s1[j]).0 == (
                    #[trigger] s0[j]).0 by {}
                    assert forall|sid: i32|
                        sid != stream_id implies #[trigger] final(self).queue_view(sid) == old(
                        self,
                    ).queue_view(sid) by {
                        lemma_assoc_index_same_keys(s0, s1, sid);
                        lemma_assoc_index_props(s0, sid);
                        let ix = assoc_index(s0, sid);
                        if ix >= 0 {
                            assert(ix != i as int);
                            assert(s1[ix] == s0[ix]);
                        }
                        assert(final(self).queue_view(sid) =~= old(self).queue_view(sid));
                    }
                    assert(final(self).queue_view(stream_id) =~= Seq::<NetUpdate<MSG>>::empty())
                        by {
                        lemma_assoc_index_same_keys(s0, s1, stream_id);
                    }
                }
                out
            },
            None => {
                proof {
                    lemma_assoc_index_props(s0, stream_id);
                    assert(old(self).queue_view(stream_id) =~= Seq::<NetUpdate<MSG>>::empty());
                }
                Vec::new()
            },
        }
    }

    /// Whether a transport data connection is currently bound.
    fn is_bound(&self) -> (r: bool)
        ensures
            r == self.is_bound_spec(),
    {
        self.is_bound
    }

    /// Mark a transport data connection as bound to this record.
    fn bind(&mut self)
        requires
            old(self).wf(),
        ensures
            final(self).wf(),
            final(self).is_bound_spec(),
            final(self).is_listener() == old(self).is_listener(),
            final(self).next_sid() == old(self).next_sid(),
            forall|sid: i32| #[trigger] final(self).queue_view(sid) == old(self).queue_view(sid),
    {
        self.is_bound = true;
    }

    /// Issue the next stream id of this record's parity, stepping the counter
    /// by two; `None` once the counter would overflow.
    fn issue_stream_id(&mut self) -> (r: Option<i32>)
        requires
            old(self).wf(),
        ensures
            final(self).wf(),
            final(self).is_listener() == old(self).is_listener(),
            final(self).is_bound_spec() == old(self).is_bound_spec(),
            forall|sid: i32| #[trigger] final(self).queue_view(sid) == old(self).queue_view(sid),
            r is Some <==> old(self).next_sid() <= i32::MAX - 2,
            match r {
                Some(v) => {
                    &&& v == old(self).next_sid()
                    &&& final(self).next_sid() == old(self).next_sid() + 2
                    &&& v % 2 == (if old(self).is_listener() {
                        1i32
                    } else {
                        0i32
                    })
                    &&& v >= 1
                },
                None => final(self).next_sid() == old(self).next_sid(),
            },
    {
        if self.next_stream_id > i32::MAX - 2 {
            return None;
        }
        let ret = self.next_stream_id;
        self.next_stream_id = self.next_stream_id + 2;
        Some(ret)
    }
}


/// The registry. Slot `h - 1` of `peers` holds handle `h`'s record; a closed
/// handle leaves a `None` behind, so handles are never reused and handle 0 is
/// never allocated. `outbox` queues outbound envelopes for the transport.
pub struct NetworkManager<MSG> {
    peers: Vec<Option<PeerInfo<MSG>>>,
    outbox: Vec<(i32, NetData<MSG>)>,
}

impl<MSG> NetworkManager<MSG> {
    /// The record registered under handle `h`, if any.
    pub closed spec fn slot(self, h: i32) -> Option<PeerInfo<MSG>> {
        if 1 <= h && h - 1 < self.peers@.len() {
            self.peers@[h - 1]
        } else {
            None
        }
    }

    /// Whether `h` is an active handle.
    pub open spec fn has_handle(self, h: i32) -> bool {
        self.slot(h) is Some
    }

    /// The record under an active handle.
    pub open spec fn peer(self, h: i32) -> PeerInfo<MSG> {
        self.slot(h)->Some_0
    }

    /// The handle the next allocation would take.
    pub closed spec fn next_handle(self) -> int {
        self.peers@.len() as int + 1
    }

    /// The events queued under `(h, sid)`; empty under an unknown handle.
    pub open spec fn events(self, h: i32, sid: i32) -> Seq<NetUpdate<MSG>> {
        if self.has_handle(h) {
            self.peer(h).queue_view(sid)
        } else {
            Seq::empty()
        }
    }

    /// The envelopes queued for the transport, oldest first, each with the
    /// handle of the connection it must leave on.
    pub closed spec fn outbox_view(self) -> Seq<(i32, NetData<MSG>)> {
        self.outbox@
    }

    /// Whether a send to `h` would go out: the handle is active and its
    /// transport connection is bound.
    pub open spec fn is_send_ready(self, h: i32) -> bool {
        self.has_handle(h) && self.peer(h).is_bound_spec()
    }

    /// Every registered record is well-formed.
    pub closed spec fn wf(self) -> bool {
        forall|i: int|
            0 <= i < self.peers@.len() ==> ((#[trigger] self.peers@[i]) matches Some(p)
                ==> p.wf())
    }

    /// A registry with no connections; the first allocation takes handle 1.
    pub fn new() -> (m: Self)
        ensures
            m.wf(),
            m.next_handle() == 1,
            forall|h: i32| !(#[trigger] m.has_handle(h)),
            m.outbox_view() == Seq::<(i32, NetData<MSG>)>::empty(),
    {
        NetworkManager { peers: Vec::new(), outbox: Vec::new() }
    }

    /// Register `info` under the next free handle; handle 0 signals that the
    /// handle space is exhausted and nothing was registered.
    fn alloc_peer(&mut self, info: PeerInfo<MSG>) -> (h: NetworkHandle)
        requires
            old(self).wf(),
            info.wf(),
        ensures
            final(self).wf(),
            final(self).outbox_view() == old(self).outbox_view(),
            old(self).next_handle() <= 0x7fff_ffff ==> {
                &&& h.0 >= 1
                &&& h.0 as int == old(self).next_handle()
                &&& final(self).next_handle() == old(self).next_handle() + 1
                &&& !old(self).has_handle(h.0)
                &&& final(self).slot(h.0) == Some(info)
                &&& forall|h2: i32| h2 != h.0 ==> final(self).slot(h2) == old(self).slot(h2)
            },
            old(self).next_handle() > 0x7fff_ffff ==> h.0 == 0 && final(self).next_handle() == old(
                self,
            ).next_handle() && (forall|h2: i32|
                #[trigger] final(self).slot(h2) == old(self).slot(h2)),
    {
        if self.peers.len() >= 0x7fff_ffff {
            return NetworkHandle(0);
        }
        let h: i32 = (self.peers.len() + 1) as i32;
        self.peers.push(Some(info));
        proof {
            assert(final(self).slot(h) == Some(info));
            assert forall|h2: i32| h2 != h implies final(self).slot(h2) == old(self).slot(h2) by {
                if 1 <= h2 && h2 - 1 < old(self).peers@.len() {
                    assert(final(self).peers@[h2 - 1] == old(self).peers@[h2 - 1]);
                }
            }
        }
        NetworkHandle(h)
    }

    /// Begin an outbound connection: the handle is allocated at once and the
    /// record starts unbound; the transport binds it when (and if) the
    /// handshake completes. The rendezvous address is consumed by the
    /// transport layer, not stored here.
    pub fn connect(&mut self, _address: &str) -> (h: NetworkHandle)
        requires
            old(self).wf(),
        ensures
            final(self).wf(),
            final(self).outbox_view() == old(self).outbox_view(),
            old(self).next_handle() <= 0x7fff_ffff ==> {
                &&& h.0 >= 1
                &&& h.0 as int == old(self).next_handle()
                &&& final(self).next_handle() == old(self).next_handle() + 1
                &&& !old(self).has_handle(h.0)
                &&& final(self).has_handle(h.0)
                &&& !final(self).peer(h.0).is_listener()
                &&& !final(self).peer(h.0).is_bound_spec()
                &&& final(self).peer(h.0).next_sid() == 2
                &&& forall|sid: i32| #[trigger] final(self).events(h.0, sid) == Seq::<
                    NetUpdate<MSG>,
                >::empty()
                &&& forall|h2: i32| h2 != h.0 ==> final(self).slot(h2) == old(self).slot(h2)
            },
            old(self).next_handle() > 0x7fff_ffff ==> h.0 == 0 && final(self).next_handle() == old(
                self,
            ).next_handle() && (forall|h2: i32|
                #[trigger] final(self).slot(h2) == old(self).slot(h2)),
    {
        self.alloc_peer(PeerInfo::new(false))
    }

    /// Register as a discoverable endpoint. Like `connect`, only the handle is
    /// allocated here; the transport opens the listener under the rendezvous
    /// address and reports inbound connections through `accept_connection`.
    pub fn listen(&mut self, _address: &str) -> (h: NetworkHandle)
        requires
            old(self).wf(),
        ensures
            final(self).wf(),
            final(self).outbox_view() == old(self).outbox_view(),
            old(self).next_handle() <= 0x7fff_ffff ==> {
                &&& h.0 >= 1
                &&& h.0 as int == old(self).next_handle()
                &&& final(self).next_handle() == old(self).next_handle() + 1
                &&& !old(self).has_handle(h.0)
                &&& final(self).has_handle(h.0)
                &&& final(self).peer(h.0).is_listener()
                &&& !final(self).peer(h.0).is_bound_spec()
                &&& final(self).peer(h.0).next_sid() == 1
                &&& forall|sid: i32| #[trigger] final(self).events(h.0, sid) == Seq::<
                    NetUpdate<MSG>,
                >::empty()
                &&& forall|h2: i32| h2 != h.0 ==> final(self).slot(h2) == old(self).slot(h2)
            },
            old(self).next_handle() > 0x7fff_ffff ==> h.0 == 0 && final(self).next_handle() == old(
                self,
            ).next_handle() && (forall|h2: i32|
                #[trigger] final(self).slot(h2) == old(self).slot(h2)),
    {
        self.alloc_peer(PeerInfo::new(true))
    }

    /// Allocate a fresh handle for a connection a listener just accepted: the
    /// record sits on the listening side (odd stream ids) and is born with its
    /// data connection bound.
    pub fn accept_connection(&mut self) -> (h: NetworkHandle)
        requires
            old(self).wf(),
        ensures
            final(self).wf(),
            final(self).outbox_view() == old(self).outbox_view(),
            old(self).next_handle() <= 0x7fff_ffff ==> {
                &&& h.0 >= 1
                &&& h.0 as int == old(self).next_handle()
                &&& final(self).next_handle() == old(self).next_handle() + 1
                &&& !old(self).has_handle(h.0)
                &&& final(self).has_handle(h.0)
                &&& final(self).peer(h.0).is_listener()
                &&& final(self).peer(h.0).is_bound_spec()
                &&& final(self).peer(h.0).next_sid() == 1
                &&& forall|sid: i32| #[trigger] final(self).events(h.0, sid) == Seq::<
                    NetUpdate<MSG>,
                >::empty()
                &&& forall|h2: i32| h2 != h.0 ==> final(self).slot(h2) == old(self).slot(h2)
            },
            old(self).next_handle() > 0x7fff_ffff ==> h.0 == 0 && final(self).next_handle() == old(
                self,
            ).next_handle() && (forall|h2: i32|
                #[trigger] final(self).slot(h2) == old(self).slot(h2)),
    {
        let mut info = PeerInfo::new(true);
        info.bind();
        self.alloc_peer(info)
    }

    /// Mark `handle`'s record as having its transport connection bound, so
    /// sends to it go out. A no-op under an unknown handle.
    pub fn bind(&mut self, handle: NetworkHandle)
        requires
            old(self).wf(),
        ensures
            final(self).wf(),
            final(self).outbox_view() == old(self).outbox_view(),
            final(self).next_handle() == old(self).next_handle(),
            events_preserved(*old(self), *final(self)),
            !old(self).has_handle(handle.0) ==> (forall|h2: i32|
                #[trigger] final(self).slot(h2) == old(self).slot(h2)),
            old(self).has_handle(handle.0) ==> {
                &&& final(self).has_handle(handle.0)
                &&& final(self).peer(handle.0).is_bound_spec()
                &&& final(self).peer(handle.0).is_listener() == old(self).peer(
                    handle.0,
                ).is_listener()
                &&& final(self).peer(handle.0).next_sid() == old(self).peer(handle.0).next_sid()
                &&& forall|sid: i32|
                    #[trigger] final(self).events(handle.0, sid) == old(self).events(handle.0, sid)
                &&& forall|h2: i32| h2 != handle.0 ==> final(self).slot(h2) == old(self).slot(h2)
            },
    {
        let hid: i32 = handle.0;
        if hid >= 1 {
            let idx: usize = (hid - 1) as usize;
            if idx < self.peers.len() {
                match &mut self.peers[idx] {
                    Some(info) => {
                        info.bind();
                        proof {
                            assert(final(self).peers@ =~= old(self).peers@.update(
                                idx as int,
                                final(self).peers@[idx as int],
                            ));
                        }
                    },
                    None => {},
                }
            }
        }
    }

    /// File an inbound event under `(handle, stream_id)`, in arrival order.
    /// A no-op under an unknown handle: the connection may already be closed.
    pub fn deliver(&mut self, handle: NetworkHandle, stream_id: i32, upd: NetUpdate<MSG>)
        requires
            old(self).wf(),
        ensures
            final(self).wf(),
            final(self).outbox_view() == old(self).outbox_view(),
            final(self).next_handle() == old(self).next_handle(),
            !old(self).has_handle(handle.0) ==> (forall|h2: i32|
                #[trigger] final(self).slot(h2) == old(self).slot(h2)),
            old(self).has_handle(handle.0) ==> {
                &&& final(self).has_handle(handle.0)
                &&& final(self).events(handle.0, stream_id) == old(self).events(
                    handle.0,
                    stream_id,
                ).push(upd)
                &&& forall|sid: i32|
                    sid != stream_id ==> #[trigger] final(self).events(handle.0, sid) == old(
                        self,
                    ).events(handle.0, sid)
                &&& final(self).peer(handle.0).is_listener() == old(self).peer(
                    handle.0,
                ).is_listener()
                &&& final(self).peer(handle.0).is_bound_spec() == old(self).peer(
                    handle.0,
                ).is_bound_spec()
                &&& final(self).peer(handle.0).next_sid() == old(self).peer(handle.0).next_sid()
                &&& forall|h2: i32| h2 != handle.0 ==> final(self).slot(h2) == old(self).slot(h2)
            },
    {
        let hid: i32 = handle.0;
        if hid >= 1 {
            let idx: usize = (hid - 1) as usize;
            if idx < self.peers.len() {
                match &mut self.peers[idx] {
                    Some(info) => {
                        info.receive(stream_id, upd);
                        proof {
                            assert(final(self).peers@ =~= old(self).peers@.update(
                                idx as int,
                                final(self).peers@[idx as int],
                            ));
                        }
                    },
                    None => {},
                }
            }
        }
    }

    /// Cancel the operation/close the connection associated with `handle`.
    /// Idempotent: closing an unknown or already-closed handle is a no-op.
    pub fn close(&mut self, handle: NetworkHandle)
        requires
            old(self).wf(),
        ensures
            final(self).wf(),
            final(self).outbox_view() == old(self).outbox_view(),
            final(self).next_handle() == old(self).next_handle(),
            !final(self).has_handle(handle.0),
            forall|h2: i32| h2 != handle.0 ==> final(self).slot(h2) == old(self).slot(h2),
    {
        let hid: i32 = handle.0;
        if hid >= 1 {
            let idx: usize = (hid - 1) as usize;
            if idx < self.peers.len() {
                let slot: &mut Option<PeerInfo<MSG>> = &mut self.peers[idx];
                *slot = None;
                proof {
                    assert(final(self).peers@ =~= old(self).peers@.update(idx as int, None));
                }
            }
        }
    }

    /// Queue `{stream_id, msg}` as one envelope for the transport, if `handle`
    /// is active and its connection is bound; otherwise the send is dropped,
    /// fire-and-forget.
    pub fn send(&mut self, handle: &NetworkHandle, stream_id: i32, msg: MSG)
        requires
            old(self).wf(),
        ensures
            final(self).wf(),
            final(self).next_handle() == old(self).next_handle(),
            forall|h2: i32| #[trigger] final(self).slot(h2) == old(self).slot(h2),
            events_preserved(*old(self), *final(self)),
            if old(self).has_handle(handle.0) && old(self).peer(handle.0).is_bound_spec() {
                final(self).outbox_view() == old(self).outbox_view().push(
                    ((handle.0, NetData { stream_id, msg })),
                )
            } else {
                final(self).outbox_view() == old(self).outbox_view()
            },
    {
        let hid: i32 = handle.0;
        if hid >= 1 {
            let idx: usize = (hid - 1) as usize;
            if idx < self.peers.len() {
                let bound: bool = match &self.peers[idx] {
                    Some(info) => info.is_bound(),
                    None => false,
                };
                if bound {
                    self.outbox.push((hid, NetData { stream_id, msg }));
                }
            }
        }
    }

    /// Issue a new stream id for `handle`, per the parity rule: listeners hand
    /// out 1, 3, 5, …, connectors 2, 4, 6, …. `None` under an unknown handle
    /// or an exhausted counter.
    pub fn new_stream_id(&mut self, handle: NetworkHandle) -> (r: Option<i32>)
        requires
            old(self).wf(),
        ensures
            final(self).wf(),
            final(self).outbox_view() == old(self).outbox_view(),
            final(self).next_handle() == old(self).next_handle(),
            events_preserved(*old(self), *final(self)),
            !old(self).has_handle(handle.0) ==> r is None && (forall|h2: i32|
                #[trigger] final(self).slot(h2) == old(self).slot(h2)),
            old(self).has_handle(handle.0) ==> {
                &&& final(self).has_handle(handle.0)
                &&& final(self).peer(handle.0).is_listener() == old(self).peer(
                    handle.0,
                ).is_listener()
                &&& final(self).peer(handle.0).is_bound_spec() == old(self).peer(
                    handle.0,
                ).is_bound_spec()
                &&& forall|sid: i32|
                    #[trigger] final(self).events(handle.0, sid) == old(self).events(handle.0, sid)
                &&& forall|h2: i32| h2 != handle.0 ==> final(self).slot(h2) == old(self).slot(h2)
                &&& (r is Some <==> old(self).peer(handle.0).next_sid() <= i32::MAX - 2)
                &&& match r {
                    Some(v) => {
                        &&& v as int == old(self).peer(handle.0).next_sid()
                        &&& v >= 1
                        &&& v % 2 == (if old(self).peer(handle.0).is_listener() {
                            1i32
                        } else {
                            0i32
                        })
                        &&& final(self).peer(handle.0).next_sid() == old(self).peer(
                            handle.0,
                        ).next_sid() + 2
                    },
                    None => final(self).peer(handle.0).next_sid() == old(self).peer(
                        handle.0,
                    ).next_sid(),
                }
            },
    {
        let hid: i32 = handle.0;
        if hid >= 1 {
            let idx: usize = (hid - 1) as usize;
            if idx < self.peers.len() {
                match &mut self.peers[idx] {
                    Some(info) => {
                        let r = info.issue_stream_id();
                        proof {
                            assert(final(self).peers@ =~= old(self).peers@.update(
                                idx as int,
                                final(self).peers@[idx as int],
                            ));
                        }
                        return r;
                    },
                    None => {},
                }
            }
        }
        None
    }

    /// Atomically drain and return all events queued under `(handle,
    /// stream_id)`, in arrival order; empty under an unknown handle or a
    /// stream nothing arrived on. This is the only consumption path: a second
    /// poll with no intervening arrival returns nothing.
    pub fn get_handle_events(&mut self, handle: NetworkHandle, stream_id: i32) -> (r: Vec<
        NetUpdate<MSG>,
    >)
        requires
            old(self).wf(),
        ensures
            final(self).wf(),
            final(self).outbox_view() == old(self).outbox_view(),
            final(self).next_handle() == old(self).next_handle(),
            r@ == old(self).events(handle.0, stream_id),
            final(self).events(handle.0, stream_id) == Seq::<NetUpdate<MSG>>::empty(),
            only_drains(*old(self), *final(self)),
            !old(self).has_handle(handle.0) ==> (forall|h2: i32|
                #[trigger] final(self).slot(h2) == old(self).slot(h2)),
            old(self).has_handle(handle.0) ==> {
                &&& final(self).has_handle(handle.0)
                &&& final(self).peer(handle.0).is_listener() == old(self).peer(
                    handle.0,
                ).is_listener()
                &&& final(self).peer(handle.0).is_bound_spec() == old(self).peer(
                    handle.0,
                ).is_bound_spec()
                &&& final(self).peer(handle.0).next_sid() == old(self).peer(handle.0).next_sid()
                &&& forall|sid: i32|
                    sid != stream_id ==> #[trigger] final(self).events(handle.0, sid) == old(
                        self,
                    ).events(handle.0, sid)
                &&& forall|h2: i32| h2 != handle.0 ==> final(self).slot(h2) == old(self).slot(h2)
            },
    {
        let hid: i32 = handle.0;
        if hid >= 1 {
            let idx: usize = (hid - 1) as usize;
            if idx < self.peers.len() {
                match &mut self.peers[idx] {
                    Some(info) => {
                        let r = info.take_queue(stream_id);
                        proof {
                            assert(final(self).peers@ =~= old(self).peers@.update(
                                idx as int,
                                final(self).peers@[idx as int],
                            ));
                        }
                        return r;
                    },
                    None => {},
                }
            }
        }
        Vec::new()
    }

    /// Drain the envelopes queued for the transport, oldest first.
    pub fn take_outbox(&mut self) -> (r: Vec<(i32, NetData<MSG>)>)
        requires
            old(self).wf(),
        ensures
            final(self).wf(),
            r@ == old(self).outbox_view(),
            final(self).outbox_view() == Seq::<(i32, NetData<MSG>)>::empty(),
            final(self).next_handle() == old(self).next_handle(),
            forall|h2: i32| #[trigger] final(self).slot(h2) == old(self).slot(h2),
            events_preserved(*old(self), *final(self)),
    {
        let mut out: Vec<(i32, NetData<MSG>)> = Vec::new();
        core::mem::swap(&mut self.outbox, &mut out);
        out
    }
}


/// Between two registry states, every event queue kept its exact contents.
pub open spec fn events_preserved<MSG>(
    pre: NetworkManager<MSG>,
    post: NetworkManager<MSG>,
) -> bool {
    forall|h2: i32, sid: i32| #[trigger] post.events(h2, sid) == pre.events(h2, sid)
}


/// Between two registry states, every event queue either kept its exact
/// contents or was drained: nothing was added anywhere. This is what one
/// frame of protocol work does to the queues — polling is the only
/// consumption path, and nothing but the transport ever files events.
pub open spec fn only_drains<MSG>(pre: NetworkManager<MSG>, post: NetworkManager<MSG>) -> bool {
    forall|h2: i32, sid: i32|
        #[trigger] post.events(h2, sid) == pre.events(h2, sid) || post.events(h2, sid) == Seq::<
            NetUpdate<MSG>,
        >::empty()
}

/// Draining composes: two drain-only steps make a drain-only step.
pub proof fn lemma_only_drains_trans<MSG>(
    a: NetworkManager<MSG>,
    b: NetworkManager<MSG>,
    c: NetworkManager<MSG>,
)
    requires
        only_drains(a, b),
        only_drains(b, c),
    ensures
        only_drains(a, c),
{
    assert forall|h2: i32, sid: i32|
        #[trigger] c.events(h2, sid) == a.events(h2, sid) || c.events(h2, sid) == Seq::<
            NetUpdate<MSG>,
        >::empty() by {
        assert(b.events(h2, sid) == a.events(h2, sid) || b.events(h2, sid) == Seq::<
            NetUpdate<MSG>,
        >::empty());
        assert(c.events(h2, sid) == b.events(h2, sid) || c.events(h2, sid) == Seq::<
            NetUpdate<MSG>,
        >::empty());
    }
}


/// Every handle is in exactly one definite state: handles at or above
/// `next_handle` were never allocated, and of those below it, each is either
/// active (`has_handle`, and lookups reach its record) or has been closed
/// (`!has_handle`, and by the operations' contracts every lookup under it is a
/// no-op with an empty result). No handle is ever in an undefined state, and
/// handle 0 is never allocated.
pub proof fn lemma_handle_states<MSG>(m: NetworkManager<MSG>, h: i32)
    requires
        m.wf(),
    ensures
        m.has_handle(h) ==> 1 <= h < m.next_handle(),
        m.has_handle(h) ==> m.peer(h).wf(),
        !m.has_handle(h) ==> forall|sid: i32|
            #[trigger] m.events(h, sid) == Seq::<NetUpdate<MSG>>::empty(),
{
    if m.has_handle(h) {
        assert(m.peers@[h - 1] is Some);
        assert(m.peers@[h - 1] matches Some(p) ==> p.wf());
    }
}

/// The stream-id parity invariant: for the two ends of one logical connection
/// — the listener-side registry record and the connector-side one — the
/// listener's counter is always odd and the connector's always even, so the
/// ids the two ends issue (each stepping its counter by two) never intersect.
pub proof fn lemma_stream_id_parity<MSG>(
    listener: NetworkManager<MSG>,
    connector: NetworkManager<MSG>,
    lh: i32,
    ch: i32,
)
    requires
        listener.wf(),
        connector.wf(),
        listener.has_handle(lh),
        connector.has_handle(ch),
        listener.peer(lh).is_listener(),
        !connector.peer(ch).is_listener(),
    ensures
        listener.peer(lh).next_sid() % 2 == 1,
        connector.peer(ch).next_sid() % 2 == 0,
        listener.peer(lh).next_sid() != connector.peer(ch).next_sid(),
{
    lemma_handle_states(listener, lh);
    lemma_handle_states(connector, ch);
    let lp = listener.peer(lh);
    let cp = connector.peer(ch);
    assert(lp.next_stream_id % 2 == 1i32 && cp.next_stream_id % 2 == 0i32);
    assert(lp.next_sid() % 2 == 1 && cp.next_sid() % 2 == 0) by {
        assert(lp.next_stream_id >= 1 && cp.next_stream_id >= 1);
    };
}


} // verus!
