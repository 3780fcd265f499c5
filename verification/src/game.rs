//! The per-session game logic: who we are on the network (host, client, or
//! both ends during a handshake), the snakes we track, and the stream-0
//! introduction protocol that hands each new peer a start-point set and a
//! dedicated stream per snake.

use vstd::prelude::*;
use crate::geom::Pos;
use crate::messages::{NetMsg, SnakeIntroMsg};
use crate::network::{
    events_preserved,
    lemma_only_drains_trans,
    only_drains,
    NetData,
    NetUpdate,
    NetworkHandle,
    NetworkManager,
};
use crate::snake::{owner_step, same_snake_state, step_units, Snake, SnakeConfig};

verus! {

/// Tuning of the game logic.
pub struct GameConfig {
    pub snake: SnakeConfig,
}

/// Compare two point lists.
fn pos_vec_eq(a: &Vec<Pos>, b: &Vec<Pos>) -> (r: bool)
    ensures
        r == (a@ == b@),
{
    if a.len() != b.len() {
        proof {
            assert(a@.len() != b@.len());
        }
        return false;
    }
    let n: usize = a.len();
    let mut i: usize = 0;
    while i < n
        invariant
            0 <= i <= n,
            n == a@.len() == b@.len(),
            forall|j: int| 0 <= j < i ==> a@[j] == b@[j],
        decreases n - i,
    {
        if a[i] != b[i] {
            return false;
        }
        i = i + 1;
    }
    proof {
        assert(a@ =~= b@);
    }
    true
}

/// Copy one point list.
fn copy_points(points: &Vec<Pos>) -> (r: Vec<Pos>)
    ensures
        r@ == points@,
{
    let n: usize = points.len();
    let mut r: Vec<Pos> = Vec::new();
    let mut i: usize = 0;
    while i < n
        invariant
            0 <= i <= n <= points@.len(),
            n == points@.len(),
            r@ == points@.subrange(0, i as int),
        decreases n - i,
    {
        r.push(points[i]);
        proof {
            assert(r@ =~= points@.subrange(0, i + 1));
        }
        i = i + 1;
    }
    proof {
        assert(points@.subrange(0, n as int) =~= points@);
    }
    r
}

/// Copy a list of point lists.
fn copy_sets(sets: &Vec<Vec<Pos>>) -> (r: Vec<Vec<Pos>>)
    ensures
        r@.len() == sets@.len(),
        forall|j: int| 0 <= j < sets@.len() ==> (#[trigger] r@[j])@ == sets@[j]@,
{
    let n: usize = sets.len();
    let mut r: Vec<Vec<Pos>> = Vec::new();
    let mut i: usize = 0;
    while i < n
        invariant
            0 <= i <= n,
            n == sets@.len(),
            r@.len() == i,
            forall|j: int| 0 <= j < i ==> (#[trigger] r@[j])@ == sets@[j]@,
        decreases n - i,
    {
        let c: Vec<Pos> = copy_points(&sets[i]);
        r.push(c);
        i = i + 1;
    }
    r
}

/// The latency-probe request carried by a stream-0 event, if it is one:
/// positive means request.
pub open spec fn ping_request_of(m: NetUpdate<NetMsg>) -> Option<i64> {
    match m {
        NetUpdate::Data(nd) => match nd.msg {
            NetMsg::Ping(t) => if t > 0 {
                Some(t)
            } else {
                None
            },
            _ => None,
        },
        _ => None,
    }
}

/// The snake announcement carried by a stream-0 event, if it is one the
/// session adopts (it must bring the two points a trail needs).
pub open spec fn intro_of(m: NetUpdate<NetMsg>) -> Option<SnakeIntroMsg> {
    match m {
        NetUpdate::Data(nd) => match nd.msg {
            NetMsg::SnakeIntro(i) => if i.start_points@.len() >= 2 {
                Some(i)
            } else {
                None
            },
            _ => None,
        },
        _ => None,
    }
}

/// The start-point set a client would claim from a stream-0 event, if any:
/// the first advertised set, provided it has the two points a trail needs.
pub open spec fn claim_of(m: NetUpdate<NetMsg>) -> Option<Seq<Pos>> {
    match m {
        NetUpdate::Data(nd) => match nd.msg {
            NetMsg::StartPointsUpdate(pts) => if pts@.len() >= 1 && pts@[0]@.len() >= 2 {
                Some(pts@[0]@)
            } else {
                None
            },
            _ => None,
        },
        _ => None,
    }
}

/// The freshly accepted connection a stream-0 event announces, if it does.
pub open spec fn new_peer_of(m: NetUpdate<NetMsg>) -> Option<i32> {
    match m {
        NetUpdate::NewPeer(c) => Some(c),
        _ => None,
    }
}

/// How many of the first `n` events are latency-probe requests.
pub open spec fn count_pings(msgs: Seq<NetUpdate<NetMsg>>, n: int) -> nat
    decreases n,
{
    if n <= 0 {
        0
    } else {
        count_pings(msgs, n - 1) + (if ping_request_of(msgs[n - 1]) is Some {
            1nat
        } else {
            0nat
        })
    }
}

/// The `i`-th probe request among the first `n` events.
pub open spec fn nth_ping(msgs: Seq<NetUpdate<NetMsg>>, n: int, i: int) -> i64
    decreases n,
{
    if n <= 0 {
        0
    } else if ping_request_of(msgs[n - 1]) is Some && i == count_pings(msgs, n - 1) {
        ping_request_of(msgs[n - 1])->Some_0
    } else {
        nth_ping(msgs, n - 1, i)
    }
}

/// How many of the first `n` events announce an adoptable snake.
pub open spec fn count_intros(msgs: Seq<NetUpdate<NetMsg>>, n: int) -> nat
    decreases n,
{
    if n <= 0 {
        0
    } else {
        count_intros(msgs, n - 1) + (if intro_of(msgs[n - 1]) is Some {
            1nat
        } else {
            0nat
        })
    }
}

/// The `i`-th adoptable announcement among the first `n` events.
pub open spec fn nth_intro(msgs: Seq<NetUpdate<NetMsg>>, n: int, i: int) -> Option<SnakeIntroMsg>
    decreases n,
{
    if n <= 0 {
        None
    } else if intro_of(msgs[n - 1]) is Some && i == count_intros(msgs, n - 1) {
        intro_of(msgs[n - 1])
    } else {
        nth_intro(msgs, n - 1, i)
    }
}

/// The connection announced by the last `NewPeer` among the first `n` events.
pub open spec fn last_new_peer(msgs: Seq<NetUpdate<NetMsg>>, n: int) -> Option<i32>
    decreases n,
{
    if n <= 0 {
        None
    } else {
        match new_peer_of(msgs[n - 1]) {
            Some(c) => Some(c),
            None => last_new_peer(msgs, n - 1),
        }
    }
}

/// How many of the first `n` events are `NewPeer` announcements.
pub open spec fn count_new_peers(msgs: Seq<NetUpdate<NetMsg>>, n: int) -> nat
    decreases n,
{
    if n <= 0 {
        0
    } else {
        count_new_peers(msgs, n - 1) + (if new_peer_of(msgs[n - 1]) is Some {
            1nat
        } else {
            0nat
        })
    }
}

/// How many of the first `n` events carry a claimable start-point offer.
pub open spec fn count_claims(msgs: Seq<NetUpdate<NetMsg>>, n: int) -> nat
    decreases n,
{
    if n <= 0 {
        0
    } else {
        count_claims(msgs, n - 1) + (if claim_of(msgs[n - 1]) is Some {
            1nat
        } else {
            0nat
        })
    }
}

/// The index of the first claimable offer among the first `n` events, or `-1`.
pub open spec fn claim_index(msgs: Seq<NetUpdate<NetMsg>>, n: int) -> int
    decreases n,
{
    if n <= 0 {
        -1
    } else if claim_index(msgs, n - 1) >= 0 {
        claim_index(msgs, n - 1)
    } else if claim_of(msgs[n - 1]) is Some {
        n - 1
    } else {
        -1
    }
}

/// The index of the first unclaimed start-point set equal to `target`, or `-1`.
pub open spec fn set_index(sets: Seq<Seq<Pos>>, target: Seq<Pos>) -> int
    decreases sets.len(),
{
    if sets.len() == 0 {
        -1
    } else if sets[0] == target {
        0
    } else {
        let r = set_index(sets.drop_first(), target);
        if r < 0 {
            -1
        } else {
            r + 1
        }
    }
}

/// `set_index` finds exactly the first occurrence of `target`, if any.
pub proof fn lemma_set_index_props(sets: Seq<Seq<Pos>>, target: Seq<Pos>)
    ensures
        -1 <= set_index(sets, target) < sets.len(),
        set_index(sets, target) >= 0 ==> sets[set_index(sets, target)] == target,
        forall|j: int|
            0 <= j < sets.len() && (set_index(sets, target) == -1 || j < set_index(sets, target))
                ==> #[trigger] sets[j] != target,
    decreases sets.len(),
{
    if sets.len() > 0 && sets[0] != target {
        lemma_set_index_props(sets.drop_first(), target);
        assert forall|j: int|
            0 <= j < sets.len() && (set_index(sets, target) == -1 || j < set_index(sets, target))
                implies #[trigger] sets[j] != target by {
            if j > 0 {
                assert(sets.drop_first()[j - 1] == sets[j]);
            }
        }
    }
}

/// Conversely, a first occurrence pins `set_index` down.
pub proof fn lemma_set_index_of_first(sets: Seq<Seq<Pos>>, target: Seq<Pos>, i: int)
    requires
        0 <= i < sets.len(),
        sets[i] == target,
        forall|j: int| 0 <= j < i ==> #[trigger] sets[j] != target,
    ensures
        set_index(sets, target) == i,
{
    lemma_set_index_props(sets, target);
}

/// The unclaimed sets with the first occurrence of `target` retired (all of
/// them unchanged when none matches).
pub open spec fn remove_first_set(sets: Seq<Seq<Pos>>, target: Seq<Pos>) -> Seq<Seq<Pos>> {
    let i = set_index(sets, target);
    if i >= 0 {
        sets.remove(i)
    } else {
        sets
    }
}

/// The unclaimed sets after retiring, in order, the start set of each
/// adoptable announcement among the first `n` events.
pub open spec fn sets_after(sets: Seq<Seq<Pos>>, msgs: Seq<NetUpdate<NetMsg>>, n: int) -> Seq<
    Seq<Pos>,
>
    decreases n,
{
    if n <= 0 {
        sets
    } else {
        let prev = sets_after(sets, msgs, n - 1);
        match intro_of(msgs[n - 1]) {
            Some(m) => remove_first_set(prev, m.start_points@),
            None => prev,
        }
    }
}

/// The envelope answering a latency probe: the negated time, back on stream 0.
pub open spec fn ping_reply_envelope(to: i32, t: i64) -> (i32, NetData<NetMsg>) {
    (to, NetData { stream_id: 0, msg: NetMsg::Ping((-(t as int)) as i64) })
}

/// An envelope introducing a snake: its name, its dedicated stream, and its
/// start points, on stream 0.
pub open spec fn is_intro_envelope(
    e: (i32, NetData<NetMsg>),
    to: i32,
    name: Seq<char>,
    sid: i32,
    pts: Seq<Pos>,
) -> bool {
    &&& e.0 == to
    &&& e.1.stream_id == 0
    &&& e.1.msg matches NetMsg::SnakeIntro(m) && m.name@ == name && m.snake_stream_id == sid
        && m.start_points@ == pts
}

/// An envelope advertising the unclaimed start-point sets, on stream 0.
pub open spec fn is_start_points_envelope(
    e: (i32, NetData<NetMsg>),
    to: i32,
    sets: Seq<Seq<Pos>>,
) -> bool {
    &&& e.0 == to
    &&& e.1.stream_id == 0
    &&& e.1.msg matches NetMsg::StartPointsUpdate(ss) && ss@.len() == sets.len() && (forall|j: int|
        0 <= j < sets.len() ==> (#[trigger] ss@[j])@ == sets[j])
}

/// A freshly adopted mirror of an announced snake: its name, trail and
/// (connection, stream) source all come from the announcement.
pub open spec fn is_adopted_snake(s: Snake, m: SnakeIntroMsg, from: i32) -> bool {
    &&& s.is_remote()
    &&& !s.is_local()
    &&& s.name_view() == m.name@
    &&& s.trail() == m.start_points@
    &&& s.source_peer() == from
    &&& s.source_stream() == m.snake_stream_id
    &&& s.peer_count() == 0
    &&& !s.changed()
}


/// Whether a stream-0 event appends a snake on the client side: an adoptable
/// announcement or a claimable start-point offer.
pub open spec fn append_of(m: NetUpdate<NetMsg>) -> bool {
    intro_of(m) is Some || claim_of(m) is Some
}

/// How many of the first `n` events append a snake.
pub open spec fn count_appends(msgs: Seq<NetUpdate<NetMsg>>, n: int) -> nat
    decreases n,
{
    if n <= 0 {
        0
    } else {
        count_appends(msgs, n - 1) + (if append_of(msgs[n - 1]) {
            1nat
        } else {
            0nat
        })
    }
}

/// The `i`-th appending event among the first `n`.
pub open spec fn nth_append(msgs: Seq<NetUpdate<NetMsg>>, n: int, i: int) -> Option<
    NetUpdate<NetMsg>,
>
    decreases n,
{
    if n <= 0 {
        None
    } else if append_of(msgs[n - 1]) && i == count_appends(msgs, n - 1) {
        Some(msgs[n - 1])
    } else {
        nth_append(msgs, n - 1, i)
    }
}

/// The snake the client appends for one appending event: a mirror of an
/// announced snake, or its own local snake built from a claimed offer.
pub open spec fn appended_matches(s: Snake, e: NetUpdate<NetMsg>, from: i32) -> bool {
    if intro_of(e) is Some {
        let m = intro_of(e)->Some_0;
        &&& s.is_remote()
        &&& !s.is_local()
        &&& s.name_view() == m.name@
        &&& s.trail() == m.start_points@
        &&& s.source_peer() == from
        &&& s.source_stream() == m.snake_stream_id
        &&& !s.changed()
    } else if claim_of(e) is Some {
        &&& s.is_local()
        &&& !s.is_remote()
        &&& s.name_view() == "ClientSnake"@
        &&& s.trail() == claim_of(e)->Some_0
        &&& !s.changed()
    } else {
        false
    }
}

/// How many of the first `n` claimable offers got a stream id: the counter
/// starts at `c0` and steps by two per grant, so a grant happens while it
/// still fits.
pub open spec fn granted_claims(msgs: Seq<NetUpdate<NetMsg>>, n: int, c0: int) -> nat
    decreases n,
{
    if n <= 0 {
        0
    } else {
        granted_claims(msgs, n - 1, c0) + (if claim_of(msgs[n - 1]) is Some && c0 + 2
            * granted_claims(msgs, n - 1, c0) <= i32::MAX - 2 {
            1nat
        } else {
            0nat
        })
    }
}

/// How many envelopes the first `n` events put in the outbox on the client
/// side: one negated ping per probe request and one announcement per granted
/// claim — or none at all when the connection is not bound.
pub open spec fn connect_out_count(msgs: Seq<NetUpdate<NetMsg>>, n: int, c0: int, ready: bool) -> nat
    decreases n,
{
    if n <= 0 || !ready {
        0
    } else {
        connect_out_count(msgs, n - 1, c0, ready) + (if ping_request_of(msgs[n - 1]) is Some {
            1nat
        } else if claim_of(msgs[n - 1]) is Some && c0 + 2 * granted_claims(msgs, n - 1, c0)
            <= i32::MAX - 2 {
            1nat
        } else {
            0nat
        })
    }
}


/// The outbox count grows with the number of events counted.
pub proof fn lemma_connect_out_count_mono(
    msgs: Seq<NetUpdate<NetMsg>>,
    a: int,
    b: int,
    c0: int,
    ready: bool,
)
    requires
        a <= b,
    ensures
        connect_out_count(msgs, a, c0, ready) <= connect_out_count(msgs, b, c0, ready),
    decreases b - a,
{
    if a < b {
        lemma_connect_out_count_mono(msgs, a, b - 1, c0, ready);
    }
}

/// One running game session: the registry of connections, the snakes, our
/// three well-known handles (each `invalid` until taken), and the start-point
/// sets not yet claimed by any player.
pub struct GameSession {
    network: NetworkManager<NetMsg>,
    snakes: Vec<Snake>,
    listen_handle: NetworkHandle,
    client_handle: NetworkHandle,
    connect_handle: NetworkHandle,
    possible_start_points: Vec<Vec<Pos>>,
}

impl GameSession {
    /// The registry's model.
    pub closed spec fn net(self) -> NetworkManager<NetMsg> {
        self.network
    }

    /// The snakes tracked this frame.
    pub closed spec fn snakes_view(self) -> Seq<Snake> {
        self.snakes@
    }

    /// The handle we listen on as host.
    pub closed spec fn listen_h(self) -> i32 {
        self.listen_handle.0
    }

    /// The handle of the peer that connected to our listener.
    pub closed spec fn client_h(self) -> i32 {
        self.client_handle.0
    }

    /// The handle of our own outbound connection.
    pub closed spec fn connect_h(self) -> i32 {
        self.connect_handle.0
    }

    /// The unclaimed start-point sets.
    pub closed spec fn start_sets(self) -> Seq<Seq<Pos>> {
        self.possible_start_points@.map_values(|v: Vec<Pos>| v@)
    }

    /// The registry is well-formed, every snake keeps its trail invariant, and
    /// every unclaimed start-point set has the two points a trail needs.
    pub closed spec fn wf(self) -> bool {
        &&& self.network.wf()
        &&& forall|j: int| 0 <= j < self.snakes@.len() ==> (#[trigger] self.snakes@[j]).wf()
        &&& forall|j: int|
            0 <= j < self.possible_start_points@.len() ==> (
            #[trigger] self.possible_start_points@[j])@.len() >= 2
    }

    /// A fresh session: no connections, no snakes, and the four canonical
    /// start-point sets up for grabs.
    pub fn new() -> (s: Self)
        ensures
            s.wf(),
            s.snakes_view().len() == 0,
            s.listen_h() == 0,
            s.client_h() == 0,
            s.connect_h() == 0,
            s.start_sets().len() == 4,
    {
        let mut sets: Vec<Vec<Pos>> = Vec::new();
        let mut s1: Vec<Pos> = Vec::new();
        s1.push(Pos { x: 200, y: 200 });
        s1.push(Pos { x: 300, y: 300 });
        sets.push(s1);
        let mut s2: Vec<Pos> = Vec::new();
        s2.push(Pos { x: 600, y: 200 });
        s2.push(Pos { x: 500, y: 300 });
        sets.push(s2);
        let mut s3: Vec<Pos> = Vec::new();
        s3.push(Pos { x: 200, y: 600 });
        s3.push(Pos { x: 300, y: 500 });
        sets.push(s3);
        let mut s4: Vec<Pos> = Vec::new();
        s4.push(Pos { x: 600, y: 600 });
        s4.push(Pos { x: 500, y: 500 });
        sets.push(s4);
        GameSession {
            network: NetworkManager::new(),
            snakes: Vec::new(),
            listen_handle: NetworkHandle::invalid(),
            client_handle: NetworkHandle::invalid(),
            connect_handle: NetworkHandle::invalid(),
            possible_start_points: sets,
        }
    }

    /// Direct access to the registry, for the transport callbacks that feed it
    /// (`accept_connection`, `bind`, `deliver`) and the transmit loop that
    /// drains its outbox.
    pub fn network(&mut self) -> (r: &mut NetworkManager<NetMsg>)
        ensures
            *r == old(self).net(),
            final(self).net() == *final(r),
            final(self).snakes_view() == old(self).snakes_view(),
            final(self).listen_h() == old(self).listen_h(),
            final(self).client_h() == old(self).client_h(),
            final(self).connect_h() == old(self).connect_h(),
            final(self).start_sets() == old(self).start_sets(),
    {
        &mut self.network
    }

    /// The handle we listen on as host (`invalid` until `be_host`).
    pub fn listen_handle(&self) -> (r: NetworkHandle)
        ensures
            r.0 == self.listen_h(),
    {
        self.listen_handle
    }

    /// The handle of the peer accepted by our listener (`invalid` until one
    /// connects).
    pub fn client_handle(&self) -> (r: NetworkHandle)
        ensures
            r.0 == self.client_h(),
    {
        self.client_handle
    }

    /// The handle of our own outbound connection (`invalid` until `be_client`).
    pub fn connect_handle(&self) -> (r: NetworkHandle)
        ensures
            r.0 == self.connect_h(),
    {
        self.connect_handle
    }

    /// How many snakes the session tracks.
    pub fn snake_count(&self) -> (r: usize)
        ensures
            r == self.snakes_view().len(),
    {
        self.snakes.len()
    }

    /// The trail of the `i`-th snake, for rendering.
    pub fn snake_trail(&self, i: usize) -> (r: Vec<Pos>)
        requires
            i < self.snakes_view().len(),
        ensures
            r@ == self.snakes_view()[i as int].trail(),
    {
        self.snakes[i].trail_points()
    }

    /// Remove the first unclaimed start-point set equal to `start_points`;
    /// whether one was found.
    pub fn consume_start_points(&mut self, start_points: &Vec<Pos>) -> (r: bool)
        requires
            old(self).wf(),
        ensures
            final(self).wf(),
            r == (set_index(old(self).start_sets(), start_points@) >= 0),
            final(self).start_sets() == remove_first_set(old(self).start_sets(), start_points@),
            final(self).net() == old(self).net(),
            final(self).snakes_view() == old(self).snakes_view(),
            final(self).listen_h() == old(self).listen_h(),
            final(self).client_h() == old(self).client_h(),
            final(self).connect_h() == old(self).connect_h(),
    {
        let n: usize = self.possible_start_points.len();
        let mut i: usize = 0;
        while i < n
            invariant
                0 <= i <= n,
                n == self.possible_start_points@.len(),
                old(self).wf(),
                forall|j: int| 0 <= j < i ==> old(self).start_sets()[j] != start_points@,
                *self == *old(self),
            decreases n - i,
        {
            if pos_vec_eq(&self.possible_start_points[i], start_points) {
                proof {
                    assert(old(self).start_sets()[i as int] == start_points@);
                    lemma_set_index_of_first(old(self).start_sets(), start_points@, i as int);
                }
                self.possible_start_points.remove(i);
                proof {
                    old(self).possible_start_points@.remove_ensures(i as int);
                    assert(self.start_sets() =~= old(self).start_sets().remove(i as int));
                    assert forall|j: int|
                        0 <= j < self.possible_start_points@.len() implies (
                    #[trigger] self.possible_start_points@[j])@.len() >= 2 by {
                        if j < i as int {
                            assert(self.possible_start_points@[j] == old(self).possible_start_points@[j]);
                        } else {
                            assert(self.possible_start_points@[j] == old(self).possible_start_points@[j + 1]);
                        }
                    }
                }
                return true;
            }
            i = i + 1;
        }
        proof {
            assert forall|j: int|
                0 <= j < old(self).start_sets().len() implies old(self).start_sets()[j]
                != start_points@ by {}
            lemma_set_index_props(old(self).start_sets(), start_points@);
        }
        false
    }

    /// Become the session's host: open a listener under the rendezvous address
    /// and take the first start-point set for our own snake, named "Myself".
    pub fn be_host(&mut self, address: &str)
        requires
            old(self).wf(),
        ensures
            final(self).wf(),
            final(self).listen_h() as int == (if old(self).net().next_handle() <= 0x7fff_ffff {
                old(self).net().next_handle()
            } else {
                0
            }),
            old(self).start_sets().len() > 0 && old(self).net().next_handle() <= 0x7fff_ffff ==> {
                &&& final(self).snakes_view().len() == old(self).snakes_view().len() + 1
                &&& final(self).snakes_view().last().is_local()
                &&& final(self).snakes_view().last().name_view() == "Myself"@
                &&& final(self).snakes_view().last().trail() == old(self).start_sets()[0]
                &&& final(self).snakes_view().last().peer_count() == 0
                &&& final(self).start_sets() == old(self).start_sets().drop_first()
            },
    {
        let h = self.network.listen(address);
        self.listen_handle = h;
        if h.id() != 0 && self.possible_start_points.len() > 0 {
            let start_points: Vec<Pos> = self.possible_start_points.remove(0);
            let s = Snake::new_local("Myself", &start_points);
            self.snakes.push(s);
            proof {
                assert(final(self).start_sets() =~= old(self).start_sets().drop_first());
                assert forall|j: int|
                    0 <= j < final(self).possible_start_points@.len() implies (#[trigger] final(self).possible_start_points@[j])@.len() >= 2 by {
                    assert(final(self).possible_start_points@[j] == old(self).possible_start_points@[j + 1]);
                }
                assert forall|j: int|
                    0 <= j < final(self).snakes_view().len() implies (#[trigger] final(self).snakes_view()[j]).wf() by {
                    if j < old(self).snakes_view().len() {
                        assert(final(self).snakes_view()[j] == old(self).snakes_view()[j]);
                    }
                }
            }
        }
    }

    /// Become a client: begin an outbound connection to the rendezvous
    /// address; snakes come later, once the host advertises start points.
    pub fn be_client(&mut self, address: &str)
        requires
            old(self).wf(),
        ensures
            final(self).wf(),
            final(self).connect_h() as int == (if old(self).net().next_handle() <= 0x7fff_ffff {
                old(self).net().next_handle()
            } else {
                0
            }),
            final(self).snakes_view() == old(self).snakes_view(),
            final(self).start_sets() == old(self).start_sets(),
            final(self).net().outbox_view() == old(self).net().outbox_view(),
    {
        let h = self.network.connect(address);
        self.connect_handle = h;
    }

    /// Probe round-trip latency: send `Ping(now_ms)` on stream 0 of both the
    /// outbound connection and the accepted client connection; either send is
    /// dropped where no bound connection stands.
    pub fn ping_connections(&mut self, now_ms: i64)
        requires
            old(self).wf(),
        ensures
            final(self).wf(),
            final(self).snakes_view() == old(self).snakes_view(),
            final(self).start_sets() == old(self).start_sets(),
            forall|h2: i32| #[trigger] final(self).net().slot(h2) == old(self).net().slot(h2),
            ({
                let net0 = old(self).net();
                let on_connect = net0.has_handle(old(self).connect_h()) && net0.peer(
                    old(self).connect_h(),
                ).is_bound_spec();
                let on_client = net0.has_handle(old(self).client_h()) && net0.peer(
                    old(self).client_h(),
                ).is_bound_spec();
                final(self).net().outbox_view() == net0.outbox_view() + (if on_connect {
                    seq![(old(self).connect_h(), (NetData { stream_id: 0, msg: NetMsg::Ping(now_ms) }))]
                } else {
                    Seq::empty()
                }) + (if on_client {
                    seq![(old(self).client_h(), (NetData { stream_id: 0, msg: NetMsg::Ping(now_ms) }))]
                } else {
                    Seq::empty()
                })
            }),
    {
        let connect = self.connect_handle;
        let client = self.client_handle;
        self.network.send(&connect, 0, NetMsg::Ping(now_ms));
        let ghost net_mid = self.network;
        self.network.send(&client, 0, NetMsg::Ping(now_ms));
        proof {
            assert(net_mid.has_handle(client.0) == old(self).net().has_handle(client.0));
            assert(final(self).net().outbox_view() =~= old(self).net().outbox_view() + (
            if old(self).net().has_handle(connect.0) && old(self).net().peer(
                connect.0,
            ).is_bound_spec() {
                seq![(connect.0, (NetData { stream_id: 0, msg: NetMsg::Ping(now_ms) }))]
            } else {
                Seq::empty()
            }) + (if old(self).net().has_handle(client.0) && old(self).net().peer(
                client.0,
            ).is_bound_spec() {
                seq![(client.0, (NetData { stream_id: 0, msg: NetMsg::Ping(now_ms) }))]
            } else {
                Seq::empty()
            }));
        }
    }
}

impl GameSession {
    /// Host-side handshake: drain stream 0 of the listener handle. Every
    /// `NewPeer` event names a freshly accepted connection, which becomes the
    /// client handle, is told the unclaimed start points, and is introduced to
    /// each existing snake over a newly issued stream (which the snake gains
    /// as a replication target). With several arrivals in one frame only the
    /// count-level facts are stated; the exact clause below covers a single
    /// arrival, the protocol's normal case.
    pub fn handle_listen_events(&mut self)
        requires
            old(self).wf(),
        ensures
            final(self).wf(),
            final(self).listen_h() == old(self).listen_h(),
            final(self).connect_h() == old(self).connect_h(),
            final(self).snakes_view().len() == old(self).snakes_view().len(),
            forall|j: int|
                0 <= j < old(self).snakes_view().len() ==> same_snake_state(
                    #[trigger] final(self).snakes_view()[j],
                    old(self).snakes_view()[j],
                ),
            final(self).start_sets() == old(self).start_sets(),
            final(self).net().events(old(self).listen_h(), 0) == Seq::<NetUpdate<NetMsg>>::empty(),
            only_drains(old(self).net(), final(self).net()),
            final(self).net().next_handle() == old(self).net().next_handle(),
            final(self).net().outbox_view().len() >= old(self).net().outbox_view().len(),
            forall|q: int|
                0 <= q < old(self).net().outbox_view().len()
                    ==> #[trigger] final(self).net().outbox_view()[q] == old(
                    self,
                ).net().outbox_view()[q],
            ({
                let msgs = old(self).net().events(old(self).listen_h(), 0);
                let n = msgs.len() as int;
                final(self).client_h() == (match last_new_peer(msgs, n) {
                    Some(c) => c,
                    None => old(self).client_h(),
                })
            }),
            ({
                let msgs = old(self).net().events(old(self).listen_h(), 0);
                let n = msgs.len() as int;
                count_new_peers(msgs, n) == 0 ==> final(self).net().outbox_view() == old(
                    self,
                ).net().outbox_view() && (forall|j: int|
                    0 <= j < old(self).snakes_view().len()
                        ==> (#[trigger] final(self).snakes_view()[j]).peer_targets() == old(
                        self,
                    ).snakes_view()[j].peer_targets())
            }),
            ({
                let msgs = old(self).net().events(old(self).listen_h(), 0);
                let n = msgs.len() as int;
                let ns0 = old(self).snakes_view().len() as int;
                let outpre = old(self).net().outbox_view().len() as int;
                count_new_peers(msgs, n) == 1 ==> ({
                    let c = last_new_peer(msgs, n)->Some_0;
                    let present = old(self).net().has_handle(c);
                    let ready_c = old(self).net().is_send_ready(c);
                    let c0 = if present {
                        old(self).net().peer(c).next_sid()
                    } else {
                        1int
                    };
                    &&& ((!present) ==> final(self).net().outbox_view() == old(
                        self,
                    ).net().outbox_view() && (forall|j: int|
                        0 <= j < ns0 ==> (#[trigger] final(self).snakes_view()[j]).peer_targets()
                            == old(self).snakes_view()[j].peer_targets()))
                    &&& (present && c0 + 2 * ns0 <= i32::MAX ==> {
                        &&& forall|j: int|
                            0 <= j < ns0 ==> (#[trigger] final(self).snakes_view()[j]).peer_targets()
                                == old(self).snakes_view()[j].peer_targets().push(
                                ((c, (c0 + 2 * j) as i32, 0i64)),
                            )
                        &&& final(self).net().has_handle(c)
                        &&& final(self).net().peer(c).next_sid() == c0 + 2 * ns0
                        &&& final(self).net().peer(c).is_bound_spec() == old(self).net().peer(
                            c,
                        ).is_bound_spec()
                        &&& (if ready_c {
                            &&& final(self).net().outbox_view().len() == outpre + 1 + ns0
                            &&& forall|q: int|
                                0 <= q < outpre ==> #[trigger] final(self).net().outbox_view()[q]
                                    == old(self).net().outbox_view()[q]
                            &&& is_start_points_envelope(
                                final(self).net().outbox_view()[outpre],
                                c,
                                old(self).start_sets(),
                            )
                            &&& forall|q: int|
                                outpre + 1 <= q < outpre + 1 + ns0 ==> is_intro_envelope(
                                    #[trigger] final(self).net().outbox_view()[q],
                                    c,
                                    "IamHost"@,
                                    (c0 + 2 * (q - outpre - 1)) as i32,
                                    old(self).snakes_view()[q - outpre - 1].trail().take(2),
                                )
                        } else {
                            final(self).net().outbox_view() == old(self).net().outbox_view()
                        })
                    })
                })
            }),
    {
        let listen = self.listen_handle;
        let upds: Vec<NetUpdate<NetMsg>> = self.network.get_handle_events(listen, 0);
        let ghost msgs = old(self).net().events(listen.0, 0);
        let ghost ns0 = old(self).snakes_view().len() as int;
        let ghost outpre = old(self).net().outbox_view().len() as int;
        let n: usize = upds.len();
        let mut i: usize = 0;
        while i < n
            invariant
                0 <= i <= n,
                n == upds@.len(),
                upds@ == msgs,
                msgs == old(self).net().events(listen.0, 0),
                ns0 == old(self).snakes_view().len() as int,
                outpre == old(self).net().outbox_view().len() as int,
                old(self).wf(),
                self.wf(),
                self.listen_handle == old(self).listen_handle,
                self.connect_handle == old(self).connect_handle,
                listen == self.listen_handle,
                self.possible_start_points == old(self).possible_start_points,
                self.snakes@.len() == old(self).snakes@.len(),
                forall|j: int|
                    0 <= j < old(self).snakes@.len() ==> same_snake_state(
                        #[trigger] self.snakes@[j],
                        old(self).snakes@[j],
                    ),
                self.network.events(listen.0, 0) == Seq::<NetUpdate<NetMsg>>::empty(),
                only_drains(old(self).net(), self.network),
                self.network.next_handle() == old(self).net().next_handle(),
                self.network.outbox_view().len() >= outpre,
                forall|q: int|
                    0 <= q < outpre ==> #[trigger] self.network.outbox_view()[q] == old(
                        self,
                    ).net().outbox_view()[q],
                self.client_handle.0 == (match last_new_peer(msgs, i as int) {
                    Some(c) => c,
                    None => old(self).client_h(),
                }),
                count_new_peers(msgs, i as int) == 0 ==> self.network.outbox_view() == old(
                    self,
                ).net().outbox_view() && (forall|j: int|
                    0 <= j < ns0 ==> (#[trigger] self.snakes@[j]).peer_targets() == old(
                        self,
                    ).snakes@[j].peer_targets()) && (forall|h2: i32|
                    h2 != listen.0 ==> #[trigger] self.network.slot(h2) == old(self).net().slot(
                        h2,
                    )) && (self.network.has_handle(listen.0) == old(self).net().has_handle(
                    listen.0,
                )) && (old(self).net().has_handle(listen.0)
                    ==> self.network.peer(listen.0).next_sid() == old(self).net().peer(
                    listen.0,
                ).next_sid() && self.network.peer(listen.0).is_bound_spec() == old(
                    self,
                ).net().peer(listen.0).is_bound_spec()),
                count_new_peers(msgs, i as int) == 1 ==> ({
                    let c = last_new_peer(msgs, i as int)->Some_0;
                    let present = old(self).net().has_handle(c);
                    let ready_c = old(self).net().is_send_ready(c);
                    let c0 = if present {
                        old(self).net().peer(c).next_sid()
                    } else {
                        1int
                    };
                    &&& ((!present) ==> self.network.outbox_view() == old(
                        self,
                    ).net().outbox_view() && (forall|j: int|
                        0 <= j < ns0 ==> (#[trigger] self.snakes@[j]).peer_targets() == old(
                            self,
                        ).snakes@[j].peer_targets()))
                    &&& (present && c0 + 2 * ns0 <= i32::MAX ==> {
                        &&& forall|j: int|
                            0 <= j < ns0 ==> (#[trigger] self.snakes@[j]).peer_targets() == old(
                                self,
                            ).snakes@[j].peer_targets().push(((c, (c0 + 2 * j) as i32, 0i64)))
                        &&& self.network.has_handle(c)
                        &&& self.network.peer(c).next_sid() == c0 + 2 * ns0
                        &&& self.network.peer(c).is_bound_spec() == old(self).net().peer(
                            c,
                        ).is_bound_spec()
                        &&& (if ready_c {
                            &&& self.network.outbox_view().len() as int == outpre + 1 + ns0
                            &&& forall|q: int|
                                0 <= q < outpre ==> #[trigger] self.network.outbox_view()[q] == old(
                                    self,
                                ).net().outbox_view()[q]
                            &&& is_start_points_envelope(
                                self.network.outbox_view()[outpre],
                                c,
                                old(self).start_sets(),
                            )
                            &&& forall|q: int|
                                outpre + 1 <= q < outpre + 1 + ns0 ==> is_intro_envelope(
                                    #[trigger] self.network.outbox_view()[q],
                                    c,
                                    "IamHost"@,
                                    (c0 + 2 * (q - outpre - 1)) as i32,
                                    old(self).snakes@[q - outpre - 1].trail().take(2),
                                )
                        } else {
                            self.network.outbox_view() == old(self).net().outbox_view()
                        })
                    })
                }),
            decreases n - i,
        {
            match &upds[i] {
                NetUpdate::NewPeer(corr) => {
                    let ghost first = count_new_peers(msgs, i as int) == 0;
                    // Inform the connecting peer about possible start points.
                    self.client_handle = NetworkHandle::from_correlator(*corr);
                    let client = self.client_handle;
                    let ghost present = old(self).net().has_handle(client.0);
                    let ghost ready_c = old(self).net().is_send_ready(client.0);
                    let ghost c0: int = if present {
                        old(self).net().peer(client.0).next_sid()
                    } else {
                        1int
                    };
                    let ghost cond = first && present && c0 + 2 * ns0 <= i32::MAX;
                    proof {
                        if first {
                            if client.0 == listen.0 {
                                assert(self.network.has_handle(client.0) == present);
                                assert(self.network.is_send_ready(client.0) == ready_c);
                            } else {
                                assert(self.network.slot(client.0) == old(self).net().slot(
                                    client.0,
                                ));
                            }
                        }
                    }
                    let sets: Vec<Vec<Pos>> = copy_sets(&self.possible_start_points);
                    let ghost net_b = self.network;
                    self.network.send(&client, 0, NetMsg::StartPointsUpdate(sets));
                    proof {
                        if cond && ready_c {
                            assert(is_start_points_envelope(
                                self.network.outbox_view()[outpre],
                                client.0,
                                old(self).start_sets(),
                            ));
                        }
                    }
                    // Introduce each existing snake on a dedicated stream.
                    let ns: usize = self.snakes.len();
                    let mut j: usize = 0;
                    while j < ns
                        invariant
                            0 <= j <= ns,
                            ns == self.snakes@.len(),
                            ns as int == ns0,
                            ns0 == old(self).snakes_view().len() as int,
                            outpre == old(self).net().outbox_view().len() as int,
                            self.wf(),
                            old(self).wf(),
                            self.listen_handle == old(self).listen_handle,
                            self.connect_handle == old(self).connect_handle,
                            listen == self.listen_handle,
                            client == self.client_handle,
                            self.possible_start_points == old(self).possible_start_points,
                            forall|q: int|
                                0 <= q < old(self).snakes@.len() ==> same_snake_state(
                                    #[trigger] self.snakes@[q],
                                    old(self).snakes@[q],
                                ),
                            self.network.events(listen.0, 0) == Seq::<NetUpdate<NetMsg>>::empty(),
                            only_drains(old(self).net(), self.network),
                            self.network.next_handle() == old(self).net().next_handle(),
                            self.network.outbox_view().len() >= outpre,
                            forall|q: int|
                                0 <= q < outpre ==> #[trigger] self.network.outbox_view()[q] == old(
                                    self,
                                ).net().outbox_view()[q],
                            present == old(self).net().has_handle(client.0),
                            ready_c == old(self).net().is_send_ready(client.0),
                            c0 == (if present {
                                old(self).net().peer(client.0).next_sid()
                            } else {
                                1int
                            }),
                            cond == (first && present && c0 + 2 * ns0 <= i32::MAX),
                            (first && !present) ==> self.network.outbox_view()
                                == net_b.outbox_view() && !self.network.has_handle(client.0) && (
                            forall|q: int|
                                0 <= q < ns0 ==> (#[trigger] self.snakes@[q]).peer_targets() == old(
                                    self,
                                ).snakes@[q].peer_targets()),
                            cond ==> {
                                &&& forall|q: int|
                                    0 <= q < j ==> (#[trigger] self.snakes@[q]).peer_targets()
                                        == old(self).snakes@[q].peer_targets().push(
                                        ((client.0, (c0 + 2 * q) as i32, 0i64)),
                                    )
                                &&& forall|q: int|
                                    j <= q < ns0 ==> (#[trigger] self.snakes@[q]).peer_targets()
                                        == old(self).snakes@[q].peer_targets()
                                &&& self.network.has_handle(client.0)
                                &&& self.network.peer(client.0).next_sid() == c0 + 2 * j
                                &&& self.network.peer(client.0).is_bound_spec() == old(
                                    self,
                                ).net().peer(client.0).is_bound_spec()
                                &&& (if ready_c {
                                    &&& self.network.outbox_view().len() as int == outpre + 1 + j
                                    &&& forall|q: int|
                                        0 <= q < outpre
                                            ==> #[trigger] self.network.outbox_view()[q] == old(
                                            self,
                                        ).net().outbox_view()[q]
                                    &&& is_start_points_envelope(
                                        self.network.outbox_view()[outpre],
                                        client.0,
                                        old(self).start_sets(),
                                    )
                                    &&& forall|q: int|
                                        outpre + 1 <= q < outpre + 1 + j ==> is_intro_envelope(
                                            #[trigger] self.network.outbox_view()[q],
                                            client.0,
                                            "IamHost"@,
                                            (c0 + 2 * (q - outpre - 1)) as i32,
                                            old(self).snakes@[q - outpre - 1].trail().take(2),
                                        )
                                } else {
                                    self.network.outbox_view() == net_b.outbox_view()
                                })
                            },
                        decreases ns - j,
                    {
                        let ghost net_pre = self.network;
                        let ghost snakes_pre = self.snakes@;
                        match self.network.new_stream_id(client) {
                            Some(new_stream) => {
                                proof {
                                    if client.0 == listen.0 {
                                        assert(self.network.events(listen.0, 0) == net_pre.events(
                                            listen.0,
                                            0,
                                        ));
                                    } else {
                                        assert(self.network.slot(listen.0) == net_pre.slot(
                                            listen.0,
                                        ));
                                        assert(self.network.events(listen.0, 0) == net_pre.events(
                                            listen.0,
                                            0,
                                        ));
                                    }
                                    if cond {
                                        assert(new_stream as int == c0 + 2 * j);
                                    }
                                }
                                self.snakes[j].add_peer(client, new_stream);
                                proof {
                                    assert forall|q: int|
                                        0 <= q < self.snakes@.len() implies (
                                    #[trigger] self.snakes@[q]).wf() by {
                                        if q != j as int {
                                            assert(self.snakes@[q] == snakes_pre[q]);
                                        }
                                    }
                                    assert forall|q: int|
                                        0 <= q < old(self).snakes@.len() implies same_snake_state(
                                        #[trigger] self.snakes@[q],
                                        old(self).snakes@[q],
                                    ) by {
                                        if q != j as int {
                                            assert(self.snakes@[q] == snakes_pre[q]);
                                        }
                                        assert(same_snake_state(snakes_pre[q], old(self).snakes@[q]));
                                    }
                                }
                                let sp: Vec<Pos> = self.snakes[j].get_start_points();
                                self.network.send(
                                    &client,
                                    0,
                                    NetMsg::SnakeIntro(
                                        SnakeIntroMsg {
                                            name: "IamHost".to_owned(),
                                            snake_stream_id: new_stream,
                                            start_points: sp,
                                        },
                                    ),
                                );
                                proof {
                                    if cond {
                                        assert forall|q: int|
                                            0 <= q < j as int + 1 implies (
                                        #[trigger] self.snakes@[q]).peer_targets() == old(
                                            self,
                                        ).snakes@[q].peer_targets().push(
                                            ((client.0, (c0 + 2 * q) as i32, 0i64)),
                                        ) by {
                                            if q != j as int {
                                                assert(self.snakes@[q] == snakes_pre[q]);
                                            }
                                        }
                                    }
                                }
                            },
                            None => {
                                proof {
                                    if cond {
                                        assert(false);
                                    }
                                    if first && !present {
                                        assert(self.network.slot(client.0) == net_pre.slot(
                                            client.0,
                                        ));
                                    }
                                }
                            },
                        }
                        j = j + 1;
                    }
                },
                _ => {},
            }
            i = i + 1;
        }
    }
}


impl GameSession {
    /// Client-side handshake on our outbound connection's stream 0: each
    /// latency probe is answered negated; each announced snake is adopted as a
    /// mirror; each advertised start-point list has its first set claimed for
    /// a local snake named "ClientSnake", which the first tracked snake
    /// announces back on a freshly issued stream.
    #[verifier::rlimit(60)]
    pub fn handle_connect_events(&mut self)
        requires
            old(self).wf(),
        ensures
            final(self).wf(),
            final(self).listen_h() == old(self).listen_h(),
            final(self).connect_h() == old(self).connect_h(),
            final(self).client_h() == old(self).client_h(),
            forall|j: int|
                0 <= j < old(self).snakes_view().len() ==> same_snake_state(
                    #[trigger] final(self).snakes_view()[j],
                    old(self).snakes_view()[j],
                ),
            final(self).start_sets() == old(self).start_sets(),
            final(self).net().events(old(self).connect_h(), 0) == Seq::<NetUpdate<NetMsg>>::empty(),
            only_drains(old(self).net(), final(self).net()),
            final(self).net().next_handle() == old(self).net().next_handle(),
            final(self).net().outbox_view().len() >= old(self).net().outbox_view().len(),
            forall|q: int|
                0 <= q < old(self).net().outbox_view().len()
                    ==> #[trigger] final(self).net().outbox_view()[q] == old(
                    self,
                ).net().outbox_view()[q],
            forall|h2: i32|
                h2 != old(self).connect_h() ==> final(self).net().slot(h2) == old(self).net().slot(
                    h2,
                ),
            ({
                let connect = old(self).connect_h();
                let msgs = old(self).net().events(connect, 0);
                let n = msgs.len() as int;
                let base = old(self).snakes_view().len() as int;
                let outpre = old(self).net().outbox_view().len() as int;
                let present = old(self).net().has_handle(connect);
                let ready = old(self).net().is_send_ready(connect);
                let c0 = if present {
                    old(self).net().peer(connect).next_sid()
                } else {
                    1int
                };
                &&& final(self).snakes_view().len() == base + count_appends(msgs, n)
                &&& forall|j: int|
                    base <= j < base + count_appends(msgs, n) ==> appended_matches(
                        #[trigger] final(self).snakes_view()[j],
                        nth_append(msgs, n, j - base)->Some_0,
                        connect,
                    )
                &&& forall|j: int|
                    1 <= j < base + count_appends(msgs, n) ==> (
                    #[trigger] final(self).snakes_view()[j]).peer_targets() == (if j < base {
                        old(self).snakes_view()[j].peer_targets()
                    } else {
                        Seq::empty()
                    })
                &&& (final(self).snakes_view().len() > 0 ==> final(self).snakes_view()[0].peer_targets() == (if base > 0 {
                    old(self).snakes_view()[0].peer_targets()
                } else {
                    Seq::empty()
                }) + Seq::new(
                    granted_claims(msgs, n, c0),
                    |j: int| ((connect, (c0 + 2 * j) as i32, 0i64)),
                ))
                &&& present ==> final(self).net().has_handle(connect) && final(self).net().peer(
                    connect,
                ).is_listener() == old(self).net().peer(connect).is_listener() && final(self).net().peer(connect).is_bound_spec() == old(self).net().peer(
                    connect,
                ).is_bound_spec() && final(self).net().peer(connect).next_sid() == c0 + 2
                    * granted_claims(msgs, n, c0)
                &&& (!present) ==> final(self).net().slot(connect) == old(self).net().slot(connect)
                &&& (if ready {
                    &&& final(self).net().outbox_view().len() == outpre + connect_out_count(
                        msgs,
                        n,
                        c0,
                        true,
                    )
                    &&& forall|j: int|
                        0 <= j < outpre ==> #[trigger] final(self).net().outbox_view()[j] == old(self).net().outbox_view()[j]
                    &&& forall|k: int|
                        0 <= k < n && ping_request_of(msgs[k]) is Some
                            ==> final(self).net().outbox_view()[outpre + (
                        #[trigger] connect_out_count(msgs, k, c0, true)) as int]
                            == ping_reply_envelope(connect, ping_request_of(msgs[k])->Some_0)
                    &&& forall|k: int|
                        0 <= k < n && claim_of(msgs[k]) is Some && c0 + 2 * granted_claims(
                            msgs,
                            k,
                            c0,
                        ) <= i32::MAX - 2 ==> is_intro_envelope(
                            final(self).net().outbox_view()[outpre + (
                            #[trigger] connect_out_count(msgs, k, c0, true)) as int],
                            connect,
                            "ClientSnake"@,
                            (c0 + 2 * granted_claims(msgs, k, c0)) as i32,
                            claim_of(msgs[k])->Some_0,
                        )
                } else {
                    final(self).net().outbox_view() == old(self).net().outbox_view()
                })
            }),
    {
        let connect = self.connect_handle;
        let upds: Vec<NetUpdate<NetMsg>> = self.network.get_handle_events(connect, 0);
        let ghost msgs = old(self).net().events(connect.0, 0);
        let ghost base = old(self).snakes_view().len() as int;
        let ghost outpre = old(self).net().outbox_view().len() as int;
        let ghost present = old(self).net().has_handle(connect.0);
        let ghost ready = old(self).net().is_send_ready(connect.0);
        let ghost c0: int = if present {
            old(self).net().peer(connect.0).next_sid()
        } else {
            1int
        };
        let ghost init0: Seq<(i32, i32, i64)> = if base > 0 {
            old(self).snakes_view()[0].peer_targets()
        } else {
            Seq::empty()
        };
        let n: usize = upds.len();
        let mut i: usize = 0;
        while i < n
            invariant
                0 <= i <= n,
                n == upds@.len(),
                upds@ == msgs,
                msgs == old(self).net().events(connect.0, 0),
                old(self).wf(),
                self.wf(),
                self.listen_handle == old(self).listen_handle,
                self.connect_handle == old(self).connect_handle,
                self.client_handle == old(self).client_handle,
                connect == self.connect_handle,
                self.possible_start_points == old(self).possible_start_points,
                base == old(self).snakes_view().len() as int,
                outpre == old(self).net().outbox_view().len() as int,
                present == old(self).net().has_handle(connect.0),
                ready == old(self).net().is_send_ready(connect.0),
                c0 == if present {
                    old(self).net().peer(connect.0).next_sid()
                } else {
                    1int
                },
                init0 == if base > 0 {
                    old(self).snakes_view()[0].peer_targets()
                } else {
                    Seq::<(i32, i32, i64)>::empty()
                },
                forall|j: int|
                    0 <= j < base ==> same_snake_state(
                        #[trigger] self.snakes@[j],
                        old(self).snakes@[j],
                    ),
                self.network.events(connect.0, 0) == Seq::<NetUpdate<NetMsg>>::empty(),
                only_drains(old(self).net(), self.network),
                self.network.next_handle() == old(self).net().next_handle(),
                self.network.outbox_view().len() >= outpre,
                forall|q: int|
                    0 <= q < outpre ==> #[trigger] self.network.outbox_view()[q] == old(
                        self,
                    ).net().outbox_view()[q],
                forall|h2: i32|
                    h2 != connect.0 ==> #[trigger] self.network.slot(h2) == old(self).net().slot(
                        h2,
                    ),
                self.network.is_send_ready(connect.0) == ready,
                present ==> self.network.has_handle(connect.0) && self.network.peer(
                    connect.0,
                ).is_listener() == old(self).net().peer(connect.0).is_listener()
                    && self.network.peer(connect.0).is_bound_spec() == old(self).net().peer(
                    connect.0,
                ).is_bound_spec() && self.network.peer(connect.0).next_sid() == c0 + 2
                    * granted_claims(msgs, i as int, c0),
                (!present) ==> self.network.slot(connect.0) == old(self).net().slot(connect.0),
                granted_claims(msgs, i as int, c0) <= count_claims(msgs, i as int),
                count_claims(msgs, i as int) <= count_appends(msgs, i as int),
                self.snakes@.len() as int == base + count_appends(msgs, i as int),
                forall|j: int|
                    base <= j < base + count_appends(msgs, i as int) ==> appended_matches(
                        #[trigger] self.snakes@[j],
                        nth_append(msgs, i as int, j - base)->Some_0,
                        connect.0,
                    ),
                forall|j: int|
                    1 <= j < base + count_appends(msgs, i as int) ==> (
                    #[trigger] self.snakes@[j]).peer_targets() == (if j < base {
                        old(self).snakes_view()[j].peer_targets()
                    } else {
                        Seq::empty()
                    }),
                self.snakes@.len() > 0 ==> self.snakes@[0].peer_targets() == init0 + Seq::new(
                    granted_claims(msgs, i as int, c0),
                    |j: int| ((connect.0, (c0 + 2 * j) as i32, 0i64)),
                ),
                if ready {
                    &&& self.network.outbox_view().len() as int == outpre + connect_out_count(
                        msgs,
                        i as int,
                        c0,
                        true,
                    )
                    &&& forall|j: int|
                        0 <= j < outpre ==> #[trigger] self.network.outbox_view()[j] == old(self).net().outbox_view()[j]
                    &&& forall|k: int|
                        0 <= k < i && ping_request_of(msgs[k]) is Some
                            ==> self.network.outbox_view()[outpre + (
                        #[trigger] connect_out_count(msgs, k, c0, true)) as int]
                            == ping_reply_envelope(connect.0, ping_request_of(msgs[k])->Some_0)
                    &&& forall|k: int|
                        0 <= k < i && claim_of(msgs[k]) is Some && c0 + 2 * granted_claims(
                            msgs,
                            k,
                            c0,
                        ) <= i32::MAX - 2 ==> is_intro_envelope(
                            self.network.outbox_view()[outpre + (
                            #[trigger] connect_out_count(msgs, k, c0, true)) as int],
                            connect.0,
                            "ClientSnake"@,
                            (c0 + 2 * granted_claims(msgs, k, c0)) as i32,
                            claim_of(msgs[k])->Some_0,
                        )
                } else {
                    self.network.outbox_view() == old(self).net().outbox_view()
                },
            decreases n - i,
        {
            let ghost net_pre = self.network;
            let ghost snakes_at = self.snakes@;
            proof {
                assert(msgs.len() > 0);
                if !present {
                    assert(old(self).net().events(connect.0, 0) =~= Seq::<
                        NetUpdate<NetMsg>,
                    >::empty());
                }
                assert(present);
            }
            match &upds[i] {
                NetUpdate::Data(nd) => {
                    match &nd.msg {
                        NetMsg::Ping(time) => {
                            // Positive means request: echo it back negated.
                            if *time > 0 {
                                self.network.send(&connect, 0, NetMsg::Ping(-*time));
                            }
                        },
                        NetMsg::SnakeIntro(intro) => {
                            if intro.start_points.len() >= 2 {
                                let s = Snake::new_remote(
                                    intro.name.as_str(),
                                    connect,
                                    intro.snake_stream_id,
                                    &intro.start_points,
                                );
                                self.snakes.push(s);
                                proof {
                                    assert forall|q: int|
                                        0 <= q < self.snakes@.len() implies (
                                    #[trigger] self.snakes@[q]).wf() by {
                                        if q < snakes_at.len() {
                                            assert(self.snakes@[q] == snakes_at[q]);
                                        }
                                    }
                                }
                            }
                        },
                        NetMsg::StartPointsUpdate(pts) => {
                            // Claim the first advertised start-point set.
                            if pts.len() > 0 {
                                if pts[0].len() >= 2 {
                                    let s = Snake::new_local("ClientSnake", &pts[0]);
                                    self.snakes.push(s);
                                    proof {
                                        assert forall|q: int|
                                            0 <= q < self.snakes@.len() implies (
                                        #[trigger] self.snakes@[q]).wf() by {
                                            if q < snakes_at.len() {
                                                assert(self.snakes@[q] == snakes_at[q]);
                                            }
                                        }
                                    }
                                    match self.network.new_stream_id(connect) {
                                        Some(new_stream) => {
                                            let ghost snakes_mid = self.snakes@;
                                            proof {
                                                if snakes_at.len() == 0 {
                                                    assert(snakes_mid[0].peer_targets() == Seq::<
                                                        (i32, i32, i64),
                                                    >::empty());
                                                    assert(granted_claims(msgs, i as int, c0) == 0);
                                                    assert(snakes_mid[0].peer_targets() =~= init0
                                                        + Seq::new(
                                                        granted_claims(msgs, i as int, c0),
                                                        |j: int| ((connect.0, (c0 + 2 * j) as i32, 0i64)),
                                                    ));
                                                } else {
                                                    assert(snakes_mid[0] == snakes_at[0]);
                                                }
                                                assert(new_stream as int == c0 + 2 * granted_claims(
                                                    msgs,
                                                    i as int,
                                                    c0,
                                                ));
                                            }
                                            self.snakes[0].add_peer(connect, new_stream);
                                            proof {
                                                assert forall|q: int|
                                                    0 <= q < self.snakes@.len() implies (
                                                #[trigger] self.snakes@[q]).wf() by {
                                                    if q != 0 {
                                                        assert(self.snakes@[q] == snakes_mid[q]);
                                                    }
                                                }
                                                assert(self.snakes@[0].peer_targets() =~= init0
                                                    + Seq::new(
                                                    granted_claims(msgs, i as int, c0) + 1nat,
                                                    |j: int| ((connect.0, (c0 + 2 * j) as i32, 0i64)),
                                                ));
                                                assert(granted_claims(msgs, i as int + 1, c0)
                                                    == granted_claims(msgs, i as int, c0) + 1);
                                                assert(self.snakes@[0].peer_targets() =~= init0
                                                    + Seq::new(
                                                    granted_claims(msgs, i as int + 1, c0),
                                                    |j: int| ((connect.0, (c0 + 2 * j) as i32, 0i64)),
                                                ));
                                            }
                                            let sp0: Vec<Pos> = copy_points(&pts[0]);
                                            self.network.send(
                                                &connect,
                                                0,
                                                NetMsg::SnakeIntro(
                                                    SnakeIntroMsg {
                                                        name: "ClientSnake".to_owned(),
                                                        snake_stream_id: new_stream,
                                                        start_points: sp0,
                                                    },
                                                ),
                                            );
                                        },
                                        None => {},
                                    }
                                }
                            }
                        },
                        NetMsg::Snake(_) => {},
                    }
                },
                _ => {},
            }
            proof {
                assert(self.network.events(connect.0, 0) == net_pre.events(connect.0, 0));
                assert forall|j: int|
                    base <= j < base + count_appends(msgs, i as int + 1) implies appended_matches(
                    #[trigger] self.snakes@[j],
                    nth_append(msgs, i as int + 1, j - base)->Some_0,
                    connect.0,
                ) by {
                    if j < base + count_appends(msgs, i as int) {
                        assert(self.snakes@[j] == snakes_at[j] || j == 0);
                    }
                }
                assert forall|j: int|
                    1 <= j < base + count_appends(msgs, i as int + 1) implies (
                #[trigger] self.snakes@[j]).peer_targets() == (if j < base {
                    old(self).snakes_view()[j].peer_targets()
                } else {
                    Seq::<(i32, i32, i64)>::empty()
                }) by {
                    if j < base + count_appends(msgs, i as int) {
                        assert(self.snakes@[j] == snakes_at[j]);
                    } else {
                        assert(self.snakes@[j].peer_targets() == Seq::<(i32, i32, i64)>::empty());
                    }
                }
                if self.snakes@.len() > 0 {
                    if !(claim_of(msgs[i as int]) is Some && c0 + 2 * granted_claims(
                        msgs,
                        i as int,
                        c0,
                    ) <= i32::MAX - 2) {
                        assert(granted_claims(msgs, i as int + 1, c0) == granted_claims(
                            msgs,
                            i as int,
                            c0,
                        ));
                        if snakes_at.len() > 0 {
                            assert(self.snakes@[0] == snakes_at[0]);
                        } else {
                            assert(granted_claims(msgs, i as int, c0) == 0);
                            assert(self.snakes@[0].peer_targets() == Seq::<
                                (i32, i32, i64),
                            >::empty());
                        }
                        assert(self.snakes@[0].peer_targets() =~= init0 + Seq::new(
                            granted_claims(msgs, i as int + 1, c0),
                            |j: int| ((connect.0, (c0 + 2 * j) as i32, 0i64)),
                        ));
                    }
                }
                if ready {
                    assert forall|k: int|
                        0 <= k < i as int + 1 && ping_request_of(msgs[k]) is Some
                            implies self.network.outbox_view()[outpre + (
                    #[trigger] connect_out_count(msgs, k, c0, true)) as int] == ping_reply_envelope(
                        connect.0,
                        ping_request_of(msgs[k])->Some_0,
                    ) by {
                        if k < i as int {
                            lemma_connect_out_count_mono(msgs, k + 1, i as int, c0, true);
                            assert((outpre + connect_out_count(msgs, k, c0, true) as int) < (
                            net_pre.outbox_view().len() as int));
                            assert(self.network.outbox_view()[outpre + connect_out_count(
                                msgs,
                                k,
                                c0,
                                true,
                            ) as int] == net_pre.outbox_view()[outpre + connect_out_count(
                                msgs,
                                k,
                                c0,
                                true,
                            ) as int]);
                        }
                    }
                    assert forall|k: int|
                        0 <= k < i as int + 1 && claim_of(msgs[k]) is Some && c0 + 2
                            * granted_claims(msgs, k, c0) <= i32::MAX - 2 implies is_intro_envelope(
                        self.network.outbox_view()[outpre + (
                        #[trigger] connect_out_count(msgs, k, c0, true)) as int],
                        connect.0,
                        "ClientSnake"@,
                        (c0 + 2 * granted_claims(msgs, k, c0)) as i32,
                        claim_of(msgs[k])->Some_0,
                    ) by {
                        if k < i as int {
                            lemma_connect_out_count_mono(msgs, k + 1, i as int, c0, true);
                            assert((outpre + connect_out_count(msgs, k, c0, true) as int) < (
                            net_pre.outbox_view().len() as int));
                            assert(self.network.outbox_view()[outpre + connect_out_count(
                                msgs,
                                k,
                                c0,
                                true,
                            ) as int] == net_pre.outbox_view()[outpre + connect_out_count(
                                msgs,
                                k,
                                c0,
                                true,
                            ) as int]);
                        }
                    }
                }
            }
            i = i + 1;
        }
    }

    /// Host-side stream 0 of the accepted client connection: each latency
    /// probe is answered with its negation back to the sender, and each
    /// announced snake is adopted as a mirror bound to its stream, retiring
    /// the first unclaimed start-point set equal to the one it brought.
    pub fn handle_client_events(&mut self)
        requires
            old(self).wf(),
        ensures
            final(self).wf(),
            final(self).listen_h() == old(self).listen_h(),
            final(self).connect_h() == old(self).connect_h(),
            final(self).client_h() == old(self).client_h(),
            forall|j: int|
                0 <= j < old(self).snakes_view().len() ==> same_snake_state(
                    #[trigger] final(self).snakes_view()[j],
                    old(self).snakes_view()[j],
                ),
            final(self).net().events(old(self).client_h(), 0) == Seq::<NetUpdate<NetMsg>>::empty(),
            only_drains(old(self).net(), final(self).net()),
            final(self).net().next_handle() == old(self).net().next_handle(),
            final(self).net().outbox_view().len() >= old(self).net().outbox_view().len(),
            forall|q: int|
                0 <= q < old(self).net().outbox_view().len()
                    ==> #[trigger] final(self).net().outbox_view()[q] == old(
                    self,
                ).net().outbox_view()[q],
            forall|h2: i32|
                h2 != old(self).client_h() ==> final(self).net().slot(h2) == old(self).net().slot(
                    h2,
                ),
            ({
                let msgs = old(self).net().events(old(self).client_h(), 0);
                let n = msgs.len() as int;
                let a = count_intros(msgs, n) as int;
                let base = old(self).snakes_view().len() as int;
                let outpre = old(self).net().outbox_view().len() as int;
                &&& final(self).snakes_view().len() == base + a
                &&& forall|j: int|
                    base <= j < base + a ==> is_adopted_snake(
                        #[trigger] final(self).snakes_view()[j],
                        nth_intro(msgs, n, j - base)->Some_0,
                        old(self).client_h(),
                    )
                &&& final(self).start_sets() == sets_after(old(self).start_sets(), msgs, n)
                &&& (if old(self).net().is_send_ready(old(self).client_h()) {
                    &&& final(self).net().outbox_view().len() == outpre + count_pings(msgs, n)
                    &&& forall|j: int|
                        0 <= j < outpre ==> #[trigger] final(self).net().outbox_view()[j] == old(self).net().outbox_view()[j]
                    &&& forall|j: int|
                        outpre <= j < outpre + count_pings(msgs, n)
                            ==> #[trigger] final(self).net().outbox_view()[j]
                            == ping_reply_envelope(
                            old(self).client_h(),
                            nth_ping(msgs, n, j - outpre),
                        )
                } else {
                    final(self).net().outbox_view() == old(self).net().outbox_view()
                })
            }),
    {
        let client = self.client_handle;
        let upds: Vec<NetUpdate<NetMsg>> = self.network.get_handle_events(client, 0);
        let ghost msgs = old(self).net().events(client.0, 0);
        let ghost sets0 = old(self).start_sets();
        let ghost base = old(self).snakes_view().len() as int;
        let ghost outpre = old(self).net().outbox_view().len() as int;
        let ghost ready = old(self).net().is_send_ready(client.0);
        let n: usize = upds.len();
        let mut i: usize = 0;
        while i < n
            invariant
                0 <= i <= n,
                n == upds@.len(),
                upds@ == msgs,
                old(self).wf(),
                self.wf(),
                self.listen_handle == old(self).listen_handle,
                self.connect_handle == old(self).connect_handle,
                self.client_handle == old(self).client_handle,
                client == self.client_handle,
                base == old(self).snakes_view().len() as int,
                sets0 == old(self).start_sets(),
                outpre == old(self).net().outbox_view().len() as int,
                ready == old(self).net().is_send_ready(client.0),
                forall|j: int|
                    0 <= j < base ==> same_snake_state(
                        #[trigger] self.snakes@[j],
                        old(self).snakes@[j],
                    ),
                self.network.events(client.0, 0) == Seq::<NetUpdate<NetMsg>>::empty(),
                only_drains(old(self).net(), self.network),
                self.network.next_handle() == old(self).net().next_handle(),
                self.network.outbox_view().len() >= outpre,
                forall|q: int|
                    0 <= q < outpre ==> #[trigger] self.network.outbox_view()[q] == old(
                        self,
                    ).net().outbox_view()[q],
                forall|h2: i32|
                    h2 != client.0 ==> #[trigger] self.network.slot(h2) == old(self).net().slot(h2),
                self.network.is_send_ready(client.0) == ready,
                self.snakes@.len() as int == base + count_intros(msgs, i as int),
                forall|j: int|
                    base <= j < base + count_intros(msgs, i as int) ==> is_adopted_snake(
                        #[trigger] self.snakes@[j],
                        nth_intro(msgs, i as int, j - base)->Some_0,
                        client.0,
                    ),
                self.start_sets() == sets_after(sets0, msgs, i as int),
                if ready {
                    &&& self.network.outbox_view().len() as int == outpre + count_pings(
                        msgs,
                        i as int,
                    )
                    &&& forall|j: int|
                        0 <= j < outpre ==> #[trigger] self.network.outbox_view()[j] == old(self).net().outbox_view()[j]
                    &&& forall|j: int|
                        outpre <= j < outpre + count_pings(msgs, i as int)
                            ==> #[trigger] self.network.outbox_view()[j] == ping_reply_envelope(
                            client.0,
                            nth_ping(msgs, i as int, j - outpre),
                        )
                } else {
                    self.network.outbox_view() == old(self).net().outbox_view()
                },
            decreases n - i,
        {
            let ghost net_pre = self.network;
            match &upds[i] {
                NetUpdate::Data(nd) => {
                    match &nd.msg {
                        NetMsg::Ping(time) => {
                            // Positive means request: echo it back negated to
                            // the connection it came from.
                            if *time > 0 {
                                self.network.send(&client, 0, NetMsg::Ping(-*time));
                            }
                        },
                        NetMsg::SnakeIntro(inner) => {
                            if inner.start_points.len() >= 2 {
                                let s = Snake::new_remote(
                                    inner.name.as_str(),
                                    client,
                                    inner.snake_stream_id,
                                    &inner.start_points,
                                );
                                let ghost snakes_pre = self.snakes@;
                                self.snakes.push(s);
                                proof {
                                    assert forall|q: int|
                                        0 <= q < self.snakes@.len() implies (
                                    #[trigger] self.snakes@[q]).wf() by {
                                        if q < snakes_pre.len() {
                                            assert(self.snakes@[q] == snakes_pre[q]);
                                        }
                                    }
                                    assert forall|q: int|
                                        0 <= q < base implies same_snake_state(
                                        #[trigger] self.snakes@[q],
                                        old(self).snakes@[q],
                                    ) by {
                                        assert(self.snakes@[q] == snakes_pre[q]);
                                    }
                                }
                                self.consume_start_points(&inner.start_points);
                            }
                        },
                        _ => {},
                    }
                },
                _ => {},
            }
            proof {
                assert(self.network.events(client.0, 0) == net_pre.events(client.0, 0));
                assert forall|j: int|
                    base <= j < base + count_intros(msgs, i as int + 1) implies is_adopted_snake(
                    #[trigger] self.snakes@[j],
                    nth_intro(msgs, i as int + 1, j - base)->Some_0,
                    client.0,
                ) by {}
                assert(self.start_sets() =~= sets_after(sets0, msgs, i as int + 1));
                if ready {
                    assert forall|j: int|
                        outpre <= j < outpre + count_pings(msgs, i as int + 1)
                            implies #[trigger] self.network.outbox_view()[j] == ping_reply_envelope(
                        client.0,
                        nth_ping(msgs, i as int + 1, j - outpre),
                    ) by {}
                }
            }
            i = i + 1;
        }
    }


    /// One frame of game logic: run the three stream-0 handlers — host
    /// introductions (`handle_listen_events`), the client handshake
    /// (`handle_connect_events`), the accepted-client handshake
    /// (`handle_client_events`), whose contracts state the per-event protocol
    /// effects — then tick every snake. Stated here: the well-formedness, the
    /// handles (the client handle follows the last accepted arrival), the
    /// exact motion of every locally-owned snake, the drained stream-0
    /// queues, and that a frame never grows any event queue.
    pub fn think(
        &mut self,
        mouse_down: bool,
        mouse_pos: Pos,
        elapsed_ms: u32,
        now_ms: i64,
        config: &GameConfig,
    )
        requires
            old(self).wf(),
            config.snake.grow_speed as int * elapsed_ms as int <= u32::MAX,
            now_ms <= i64::MAX - 100,
        ensures
            final(self).wf(),
            final(self).listen_h() == old(self).listen_h(),
            final(self).connect_h() == old(self).connect_h(),
            final(self).snakes_view().len() >= old(self).snakes_view().len(),
            final(self).net().outbox_view().len() >= old(self).net().outbox_view().len(),
            forall|q: int|
                0 <= q < old(self).net().outbox_view().len()
                    ==> #[trigger] final(self).net().outbox_view()[q] == old(
                    self,
                ).net().outbox_view()[q],
            ({
                let msgs = old(self).net().events(old(self).listen_h(), 0);
                final(self).client_h() == (match last_new_peer(msgs, msgs.len() as int) {
                    Some(c) => c,
                    None => old(self).client_h(),
                })
            }),
            forall|j: int|
                0 <= j < old(self).snakes_view().len() && (#[trigger] old(self).snakes_view()[j]).is_local()
                    ==> final(self).snakes_view()[j].trail() == owner_step(
                    old(self).snakes_view()[j].trail(),
                    mouse_down,
                    mouse_pos,
                    step_units(config.snake.grow_speed, elapsed_ms),
                ),
            only_drains(old(self).net(), final(self).net()),
            final(self).net().events(old(self).listen_h(), 0) == Seq::<NetUpdate<NetMsg>>::empty(),
            final(self).net().events(old(self).connect_h(), 0) == Seq::<NetUpdate<NetMsg>>::empty(),
            final(self).net().events(final(self).client_h(), 0) == Seq::<NetUpdate<NetMsg>>::empty(),
    {
        let ghost net0 = self.network;
        self.handle_listen_events();
        let ghost net1 = self.network;
        self.handle_connect_events();
        let ghost net2 = self.network;
        self.handle_client_events();
        let ghost net3 = self.network;
        let ghost client_mid = self.client_handle;
        proof {
            lemma_only_drains_trans(net0, net1, net2);
            lemma_only_drains_trans(net0, net2, net3);
            assert(net3.events(old(self).listen_h(), 0) == Seq::<NetUpdate<NetMsg>>::empty());
            assert(net3.events(old(self).connect_h(), 0) == Seq::<NetUpdate<NetMsg>>::empty());
            assert(net3.events(client_mid.0, 0) == Seq::<NetUpdate<NetMsg>>::empty());
        }
        let ghost mid = self.snakes@;
        proof {
            assert forall|j: int|
                0 <= j < old(self).snakes_view().len() implies same_snake_state(
                #[trigger] mid[j],
                old(self).snakes_view()[j],
            ) by {}
        }
        let ns: usize = self.snakes.len();
        let mut k: usize = 0;
        while k < ns
            invariant
                0 <= k <= ns,
                ns == self.snakes@.len() == mid.len(),
                self.wf(),
                self.listen_handle == old(self).listen_handle,
                self.connect_handle == old(self).connect_handle,
                config.snake.grow_speed as int * elapsed_ms as int <= u32::MAX,
                now_ms <= i64::MAX - 100,
                forall|j: int| 0 <= j < mid.len() ==> (#[trigger] mid[j]).wf(),
                forall|j: int| k <= j < ns ==> #[trigger] self.snakes@[j] == mid[j],
                forall|j: int|
                    0 <= j < k && (#[trigger] mid[j]).is_local() ==> self.snakes@[j].trail()
                        == owner_step(
                        mid[j].trail(),
                        mouse_down,
                        mouse_pos,
                        step_units(config.snake.grow_speed, elapsed_ms),
                    ),
                self.client_handle == client_mid,
                only_drains(net0, self.network),
                self.network.outbox_view().len() >= net0.outbox_view().len(),
                forall|q: int|
                    0 <= q < net0.outbox_view().len() ==> #[trigger] self.network.outbox_view()[q]
                        == net0.outbox_view()[q],
                self.network.events(old(self).listen_h(), 0) == Seq::<NetUpdate<NetMsg>>::empty(),
                self.network.events(old(self).connect_h(), 0) == Seq::<NetUpdate<NetMsg>>::empty(),
                self.network.events(client_mid.0, 0) == Seq::<NetUpdate<NetMsg>>::empty(),
            decreases ns - k,
        {
            let ghost net_prev = self.network;
            let ghost snakes_pre = self.snakes@;
            let snake: &mut Snake = &mut self.snakes[k];
            snake.think(&mut self.network, mouse_down, mouse_pos, elapsed_ms, now_ms, &config.snake);
            proof {
                lemma_only_drains_trans(net0, net_prev, self.network);
                assert forall|q: int|
                    0 <= q < self.snakes@.len() implies (#[trigger] self.snakes@[q]).wf() by {
                    if q != k as int {
                        assert(self.snakes@[q] == snakes_pre[q]);
                    }
                }
                assert forall|q: int|
                    k + 1 <= q < ns implies #[trigger] self.snakes@[q] == mid[q] by {
                    assert(self.snakes@[q] == snakes_pre[q]);
                }
                assert forall|q: int|
                    0 <= q < k + 1 && (#[trigger] mid[q]).is_local() implies self.snakes@[q].trail()
                        == owner_step(
                        mid[q].trail(),
                        mouse_down,
                        mouse_pos,
                        step_units(config.snake.grow_speed, elapsed_ms),
                    ) by {
                    if q < k as int {
                        assert(self.snakes@[q] == snakes_pre[q]);
                    }
                }
            }
            k = k + 1;
        }
        proof {
            assert forall|j: int|
                0 <= j < old(self).snakes_view().len() && (#[trigger] old(self).snakes_view()[j]).is_local()
                    implies final(self).snakes_view()[j].trail() == owner_step(
                old(self).snakes_view()[j].trail(),
                mouse_down,
                mouse_pos,
                step_units(config.snake.grow_speed, elapsed_ms),
            ) by {
                assert(same_snake_state(mid[j], old(self).snakes_view()[j]));
            }
        }
    }
}


} // verus!
