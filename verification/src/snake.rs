//! The trail-synchronization protocol: a snake's trail (an ordered list of at
//! least two points) lives authoritatively at its owner and is replicated to
//! mirrors through incremental tail diffs guarded by a prefix checksum, with a
//! full-snapshot resync whenever a mirror detects desynchronization.

use vstd::prelude::*;
use crate::checksum::{points_sum, prefix_sum};
use crate::geom::{advance_spec, advance_toward, dist_sq, dist_sq_spec, Pos};
use crate::messages::NetMsg;
use crate::network::{NetData, NetUpdate, NetworkHandle, NetworkManager};

verus! {

/// Tuning of the owner's trail movement: how many units per second the head
/// grows toward the pointer, and the tail shrinks when released.
#[derive(Clone, Debug)]
pub struct SnakeConfig {
    pub grow_speed: u32,
}

/// An incremental trail diff: the receiver keeps its first `prev_segs` points
/// untouched — vouched for by `prev_segs_sum`, the checksum over them — and
/// replaces everything after them with `last_segs`.
#[derive(Clone, Debug, PartialEq)]
pub struct EndUpdateMsg {
    /// Number of pre-existing points before `last_segs`.
    pub prev_segs: usize,
    /// Checksum over those points (sum of their x and y values).
    pub prev_segs_sum: i64,
    /// The points of the trail's tail.
    pub last_segs: Vec<Pos>,
}

/// A message on a snake's dedicated stream.
#[derive(Clone, Debug, PartialEq)]
pub enum SnakeMsg {
    /// An incremental (or full, when `prev_segs == 0`) trail update.
    EndUpdate(EndUpdateMsg),
    /// A mirror's request for a full snapshot after it detected
    /// desynchronization.
    FullUpdateReq,
}

/// Whether a mirror holding trail `t` accepts a diff: it must hold at least
/// `prev_segs` points, their checksum must equal the claimed one, and the
/// result must keep the trail's two-point minimum.
pub open spec fn end_update_accepted(t: Seq<Pos>, prev_segs: int, prev_sum: i64, last_len: int) -> bool {
    &&& t.len() >= prev_segs
    &&& prefix_sum(t, prev_segs) == prev_sum
    &&& prev_segs + last_len >= 2
}

/// The trail after a diff: unchanged when the diff is rejected, and otherwise
/// truncated to `prev_segs` points with `last` appended verbatim.
pub open spec fn apply_end_update_spec(t: Seq<Pos>, prev_segs: int, prev_sum: i64, last: Seq<Pos>) -> Seq<Pos> {
    if end_update_accepted(t, prev_segs, prev_sum, last.len() as int) {
        t.take(prev_segs) + last
    } else {
        t
    }
}

/// Apply one trail diff to `points`, returning whether it was accepted; a
/// rejected diff leaves the trail untouched and signals desynchronization.
pub fn apply_end_update(points: &mut Vec<Pos>, upd: &EndUpdateMsg) -> (accepted: bool)
    ensures
        accepted == end_update_accepted(
            old(points)@,
            upd.prev_segs as int,
            upd.prev_segs_sum,
            upd.last_segs@.len() as int,
        ),
        final(points)@ == apply_end_update_spec(
            old(points)@,
            upd.prev_segs as int,
            upd.prev_segs_sum,
            upd.last_segs@,
        ),
        accepted ==> final(points)@.len() >= 2,
        !accepted ==> final(points)@ == old(points)@,
{
    if points.len() < upd.prev_segs {
        return false;
    }
    if points_sum(points, upd.prev_segs) != upd.prev_segs_sum {
        return false;
    }
    if upd.prev_segs >= 2 || upd.last_segs.len() >= 2 - upd.prev_segs {
        points.truncate(upd.prev_segs);
        points.extend_from_slice(upd.last_segs.as_slice());
        proof {
            assert(final(points)@ =~= old(points)@.take(upd.prev_segs as int) + upd.last_segs@);
        }
        true
    } else {
        false
    }
}

/// How many units the trail moves in one frame: `grow_speed` units per second
/// over `elapsed_ms` milliseconds, rounded down.
pub open spec fn step_units(grow_speed: u32, elapsed_ms: u32) -> u64 {
    ((grow_speed * elapsed_ms) / 1000) as u64
}

/// Whether the owner tick changes the trail at all: it grows while the pointer
/// is pressed away from the head, and shrinks while released with more than
/// the minimal two points standing.
pub open spec fn owner_changes(t: Seq<Pos>, mouse_down: bool, mouse_pos: Pos) -> bool {
    ||| (mouse_down && mouse_pos != t.last())
    ||| (!mouse_down && t.len() > 2)
}

/// The owner's per-frame trail transition. Pressed: the head advances `d`
/// units toward the pointer, and if that leaves it more than 20 units from the
/// previous point, a duplicate head starts a new trailing segment. Released:
/// the head shrinks toward the previous point, which swallows it once reached
/// exactly.
pub open spec fn owner_step(t: Seq<Pos>, mouse_down: bool, mouse_pos: Pos, d: u64) -> Seq<Pos> {
    let n = t.len() as int;
    if mouse_down && mouse_pos != t.last() {
        let moved = advance_spec(t.last(), mouse_pos, d);
        let t1 = t.update(n - 1, moved);
        if dist_sq_spec(moved, t[n - 2]) > 400 {
            t1.push(moved)
        } else {
            t1
        }
    } else if !mouse_down && n > 2 {
        let moved = advance_spec(t.last(), t[n - 2], d);
        if moved == t[n - 2] {
            t.drop_last()
        } else {
            t.update(n - 1, moved)
        }
    } else {
        t
    }
}

/// A snake's state: its trail of points (always at least two), its display
/// name, and whether any point changed this frame (read by replication and by
/// rendering).
pub struct SnakeData {
    snake_points: Vec<Pos>,
    name: String,
    points_changed: bool,
}

impl SnakeData {
    /// The trail.
    pub closed spec fn trail(self) -> Seq<Pos> {
        self.snake_points@
    }

    /// The display name.
    pub closed spec fn name_view(self) -> Seq<char> {
        self.name@
    }

    /// The dirty flag.
    pub closed spec fn changed(self) -> bool {
        self.points_changed
    }

    /// The trail never has fewer than two points.
    pub open spec fn wf(self) -> bool {
        self.trail().len() >= 2
    }
}

/// The locally-controlled behavior: each frame, grow the trail toward the
/// pointer while it is pressed, and shrink the trailing segment while it is
/// released.
pub struct OwnSnakeImp {}

impl OwnSnakeImp {
    /// One owner frame over the shared pointer state: `d` units of movement
    /// are applied per `owner_step`, and the dirty flag is raised whenever any
    /// point changed.
    pub fn think(
        &mut self,
        data: &mut SnakeData,
        mouse_down: bool,
        mouse_pos: Pos,
        elapsed_ms: u32,
        config: &SnakeConfig,
    )
        requires
            old(data).wf(),
            config.grow_speed as int * elapsed_ms as int <= u32::MAX,
        ensures
            final(data).wf(),
            final(data).trail() == owner_step(
                old(data).trail(),
                mouse_down,
                mouse_pos,
                step_units(config.grow_speed, elapsed_ms),
            ),
            final(data).changed() == (old(data).changed() || owner_changes(
                old(data).trail(),
                mouse_down,
                mouse_pos,
            )),
            final(data).name_view() == old(data).name_view(),
    {
        let n: usize = data.snake_points.len();
        let last: Pos = data.snake_points[n - 1];
        let d: u64 = ((config.grow_speed * elapsed_ms) / 1000) as u64;
        if mouse_down && mouse_pos != last {
            let moved = advance_toward(last, mouse_pos, d);
            let head: &mut Pos = &mut data.snake_points[n - 1];
            *head = moved;
            proof {
                assert(data.snake_points@ =~= old(data).trail().update(n - 1, moved));
            }
            // Make sure each trail segment isn't too long.
            let prev: Pos = data.snake_points[n - 2];
            if dist_sq(moved, prev) > 400 {
                data.snake_points.push(moved);
            }
            data.points_changed = true;
        } else if !mouse_down && n > 2 {
            // Shrink the trail while the pointer is released.
            let segment_start: Pos = data.snake_points[n - 2];
            let moved = advance_toward(last, segment_start, d);
            if moved == segment_start {
                data.snake_points.pop();
                proof {
                    assert(data.snake_points@ =~= old(data).trail().drop_last());
                }
            } else {
                let head: &mut Pos = &mut data.snake_points[n - 1];
                *head = moved;
                proof {
                    assert(data.snake_points@ =~= old(data).trail().update(n - 1, moved));
                }
            }
            data.points_changed = true;
        }
    }
}


/// The trail diff carried by an inbound event, if it is one: only `Data`
/// events holding a `Snake(EndUpdate(..))` message count.
pub open spec fn mirror_diff_of(m: NetUpdate<NetMsg>) -> Option<EndUpdateMsg> {
    match m {
        NetUpdate::Data(nd) => match nd.msg {
            NetMsg::Snake(sm) => match sm {
                SnakeMsg::EndUpdate(u) => Some(u),
                SnakeMsg::FullUpdateReq => None,
            },
            _ => None,
        },
        _ => None,
    }
}

/// A mirror's trail after consuming the first `n` queued events, each diff
/// applied (or rejected) against the trail the previous ones left.
pub open spec fn mirror_trail_after(t: Seq<Pos>, msgs: Seq<NetUpdate<NetMsg>>, n: int) -> Seq<Pos>
    decreases n,
{
    if n <= 0 {
        t
    } else {
        let t1 = mirror_trail_after(t, msgs, n - 1);
        match mirror_diff_of(msgs[n - 1]) {
            Some(u) => apply_end_update_spec(t1, u.prev_segs as int, u.prev_segs_sum, u.last_segs@),
            None => t1,
        }
    }
}

/// How many of the first `n` queued diffs the mirror rejects (each triggering
/// one full-update request).
pub open spec fn mirror_rejects_after(t: Seq<Pos>, msgs: Seq<NetUpdate<NetMsg>>, n: int) -> nat
    decreases n,
{
    if n <= 0 {
        0
    } else {
        let t1 = mirror_trail_after(t, msgs, n - 1);
        mirror_rejects_after(t, msgs, n - 1) + (match mirror_diff_of(msgs[n - 1]) {
            Some(u) => {
                if end_update_accepted(t1, u.prev_segs as int, u.prev_segs_sum, u.last_segs@.len() as int) {
                    0nat
                } else {
                    1nat
                }
            },
            None => 0nat,
        })
    }
}

/// Whether any of the first `n` queued diffs was accepted (which dirties the
/// mirror's trail for rendering).
pub open spec fn mirror_applied_after(t: Seq<Pos>, msgs: Seq<NetUpdate<NetMsg>>, n: int) -> bool
    decreases n,
{
    if n <= 0 {
        false
    } else {
        let t1 = mirror_trail_after(t, msgs, n - 1);
        mirror_applied_after(t, msgs, n - 1) || (match mirror_diff_of(msgs[n - 1]) {
            Some(u) => end_update_accepted(
                t1,
                u.prev_segs as int,
                u.prev_segs_sum,
                u.last_segs@.len() as int,
            ),
            None => false,
        })
    }
}

/// The envelope a mirror sends back when it detects desynchronization.
pub open spec fn full_req_envelope(peer: i32, sid: i32) -> (i32, NetData<NetMsg>) {
    (peer, NetData { stream_id: sid, msg: NetMsg::Snake(SnakeMsg::FullUpdateReq) })
}

/// The mirror behavior of a snake controlled by a remote peer: it consumes the
/// diffs arriving on its dedicated stream and answers a rejected one with a
/// `FullUpdateReq` on the same stream.
pub struct RemoteSnakeImp {
    peer: NetworkHandle,
    stream_id: i32,
}

impl RemoteSnakeImp {
    /// The handle of the connection the owner sits behind.
    pub closed spec fn peer_id(self) -> i32 {
        self.peer.0
    }

    /// The dedicated stream the diffs arrive on.
    pub closed spec fn stream(self) -> i32 {
        self.stream_id
    }

    /// One mirror frame: drain this snake's stream and apply each diff in
    /// arrival order; every rejected diff leaves the trail alone and queues one
    /// `FullUpdateReq` back to the owner (dropped if the connection is not
    /// bound, like every send).
    pub fn think(&mut self, data: &mut SnakeData, net: &mut NetworkManager<NetMsg>)
        requires
            old(data).wf(),
            old(net).wf(),
        ensures
            *final(self) == *old(self),
            final(data).wf(),
            final(net).wf(),
            final(data).trail() == mirror_trail_after(
                old(data).trail(),
                old(net).events(old(self).peer_id(), old(self).stream()),
                old(net).events(old(self).peer_id(), old(self).stream()).len() as int,
            ),
            final(data).changed() == (old(data).changed() || mirror_applied_after(
                old(data).trail(),
                old(net).events(old(self).peer_id(), old(self).stream()),
                old(net).events(old(self).peer_id(), old(self).stream()).len() as int,
            )),
            final(data).name_view() == old(data).name_view(),
            final(net).events(old(self).peer_id(), old(self).stream()) == Seq::<NetUpdate<NetMsg>>::empty(),
            crate::network::only_drains(*old(net), *final(net)),
            forall|sid: i32|
                sid != old(self).stream() ==> #[trigger] final(net).events(old(self).peer_id(), sid) == old(
                    net,
                ).events(old(self).peer_id(), sid),
            forall|h2: i32| h2 != old(self).peer_id() ==> final(net).slot(h2) == old(net).slot(h2),
            final(net).next_handle() == old(net).next_handle(),
            old(net).has_handle(old(self).peer_id()) ==> final(net).has_handle(old(self).peer_id())
                && final(net).peer(old(self).peer_id()).is_listener() == old(net).peer(
                old(self).peer_id(),
            ).is_listener() && final(net).peer(old(self).peer_id()).is_bound_spec() == old(
                net,
            ).peer(old(self).peer_id()).is_bound_spec() && final(net).peer(
                old(self).peer_id(),
            ).next_sid() == old(net).peer(old(self).peer_id()).next_sid(),
            !old(net).has_handle(old(self).peer_id()) ==> final(net).slot(old(self).peer_id())
                == old(net).slot(old(self).peer_id()),
            ({
                let msgs = old(net).events(old(self).peer_id(), old(self).stream());
                let rejects = mirror_rejects_after(old(data).trail(), msgs, msgs.len() as int);
                if old(net).has_handle(old(self).peer_id()) && old(net).peer(
                    old(self).peer_id(),
                ).is_bound_spec() {
                    final(net).outbox_view() == old(net).outbox_view() + Seq::new(
                        rejects,
                        |j: int| full_req_envelope(old(self).peer_id(), old(self).stream()),
                    )
                } else {
                    final(net).outbox_view() == old(net).outbox_view()
                }
            }),
    {
        let upds: Vec<NetUpdate<NetMsg>> = net.get_handle_events(self.peer, self.stream_id);
        let ghost msgs = upds@;
        let ghost t0 = data.trail();
        let ghost c0 = data.changed();
        let ghost name0 = data.name_view();
        let ghost net1 = *net;
        let ghost was_bound = net1.has_handle(self.peer.0) && net1.peer(self.peer.0).is_bound_spec();
        let n: usize = upds.len();
        let mut i: usize = 0;
        while i < n
            invariant
                0 <= i <= n,
                n == msgs.len(),
                upds@ == msgs,
                old(data).wf(),
                data.wf(),
                net.wf(),
                data.trail() == mirror_trail_after(t0, msgs, i as int),
                data.changed() == (c0 || mirror_applied_after(t0, msgs, i as int)),
                data.name_view() == name0,
                was_bound == (net1.has_handle(self.peer.0) && net1.peer(
                    self.peer.0,
                ).is_bound_spec()),
                forall|h2: i32| #[trigger] net.slot(h2) == net1.slot(h2),
                net.next_handle() == net1.next_handle(),
                if was_bound {
                    net.outbox_view() == net1.outbox_view() + Seq::new(
                        mirror_rejects_after(t0, msgs, i as int),
                        |j: int| full_req_envelope(self.peer.0, self.stream_id),
                    )
                } else {
                    net.outbox_view() == net1.outbox_view()
                },
            decreases n - i,
        {
            let ghost rejects_before: nat = mirror_rejects_after(t0, msgs, i as int);
            match &upds[i] {
                NetUpdate::Data(nd) => {
                    match &nd.msg {
                        NetMsg::Snake(sm) => {
                            match sm {
                                SnakeMsg::EndUpdate(u) => {
                                    let accepted = apply_end_update(&mut data.snake_points, u);
                                    if accepted {
                                        data.points_changed = true;
                                    } else {
                                        net.send(
                                            &self.peer,
                                            self.stream_id,
                                            NetMsg::Snake(SnakeMsg::FullUpdateReq),
                                        );
                                        proof {
                                            if was_bound {
                                                assert(net.outbox_view() =~= net1.outbox_view()
                                                    + Seq::new(
                                                    rejects_before + 1nat,
                                                    |j: int| full_req_envelope(
                                                        self.peer.0,
                                                        self.stream_id,
                                                    ),
                                                ));
                                            }
                                        }
                                    }
                                },
                                SnakeMsg::FullUpdateReq => {},
                            }
                        },
                        _ => {},
                    }
                },
                _ => {},
            }
            i = i + 1;
        }
        proof {
            if !was_bound {
                assert(net.outbox_view() =~= net1.outbox_view());
            }
            assert forall|sid: i32|
                sid != old(self).stream() implies #[trigger] final(net).events(
                old(self).peer_id(),
                sid,
            ) == old(net).events(old(self).peer_id(), sid) by {
                assert(net.slot(self.peer.0) == net1.slot(self.peer.0));
                assert(net1.events(self.peer.0, sid) == old(net).events(self.peer.0, sid));
            }
            assert(crate::network::events_preserved(net1, *net));
            crate::network::lemma_only_drains_trans(*old(net), net1, *net);
        }
    }
}


/// Copy the points from index `from` on (the whole trail for `from == 0`).
fn copy_tail(points: &Vec<Pos>, from: usize) -> (r: Vec<Pos>)
    requires
        from <= points@.len(),
    ensures
        r@ == points@.skip(from as int),
{
    let mut r: Vec<Pos> = Vec::new();
    let n: usize = points.len();
    let mut i: usize = from;
    while i < n
        invariant
            from <= i <= n == points@.len(),
            r@ == points@.subrange(from as int, i as int),
        decreases n - i,
    {
        r.push(points[i]);
        proof {
            assert(r@ =~= points@.subrange(from as int, i + 1));
        }
        i = i + 1;
    }
    proof {
        assert(points@.subrange(from as int, n as int) =~= points@.skip(from as int));
    }
    r
}

/// Whether an inbound event is a mirror's request for a full snapshot.
pub open spec fn is_full_update_req(m: NetUpdate<NetMsg>) -> bool {
    m matches NetUpdate::Data(nd) && nd.msg matches NetMsg::Snake(SnakeMsg::FullUpdateReq)
}

/// How many of the first `n` queued events request a full snapshot.
pub open spec fn count_full_reqs(msgs: Seq<NetUpdate<NetMsg>>, n: int) -> nat
    decreases n,
{
    if n <= 0 {
        0
    } else {
        count_full_reqs(msgs, n - 1) + (if is_full_update_req(msgs[n - 1]) {
            1nat
        } else {
            0nat
        })
    }
}

/// An envelope carrying a full snapshot of `trail` to `(peer, sid)`: the diff
/// keeps nothing (`prev_segs == 0`) and carries the whole trail.
pub open spec fn is_snapshot_envelope(
    e: (i32, NetData<NetMsg>),
    peer: i32,
    sid: i32,
    trail: Seq<Pos>,
) -> bool {
    &&& e.0 == peer
    &&& e.1.stream_id == sid
    &&& e.1.msg matches NetMsg::Snake(SnakeMsg::EndUpdate(u)) && u.prev_segs == 0
        && u.prev_segs_sum == 0 && u.last_segs@ == trail
}

/// An envelope carrying the owner's throttled update for `trail`: only the
/// last two points when more than two stand (the untouched prefix vouched for
/// by its checksum), and the whole trail otherwise.
pub open spec fn is_incremental_envelope(
    e: (i32, NetData<NetMsg>),
    peer: i32,
    sid: i32,
    trail: Seq<Pos>,
) -> bool {
    if trail.len() > 2 {
        &&& e.0 == peer
        &&& e.1.stream_id == sid
        &&& e.1.msg matches NetMsg::Snake(SnakeMsg::EndUpdate(u)) && u.prev_segs as int
            == trail.len() - 2 && u.prev_segs_sum == prefix_sum(trail, trail.len() - 2)
            && u.last_segs@ == trail.skip(trail.len() - 2)
    } else {
        is_snapshot_envelope(e, peer, sid, trail)
    }
}

/// The outbound fan-out behavior toward one mirror: it answers snapshot
/// requests at once, and ships an incremental diff whenever the trail changed
/// and at least 100 ms passed since its last send on this stream.
pub struct SnakePeer {
    peer: NetworkHandle,
    stream_id: i32,
    next_send_time: i64,
}

impl SnakePeer {
    /// The handle of the connection the mirror sits behind.
    pub closed spec fn peer_id(self) -> i32 {
        self.peer.0
    }

    /// The dedicated stream the updates leave on.
    pub closed spec fn stream(self) -> i32 {
        self.stream_id
    }

    /// No update is sent before this time (milliseconds).
    pub closed spec fn next_send(self) -> i64 {
        self.next_send_time
    }

    /// One replication frame: answer each queued `FullUpdateReq` with a full
    /// snapshot, then, if the trail changed and the 100 ms throttle has
    /// passed, ship one incremental diff covering the trail's last two points.
    pub fn think(&mut self, data: &SnakeData, net: &mut NetworkManager<NetMsg>, now_ms: i64)
        requires
            old(net).wf(),
            now_ms <= i64::MAX - 100,
        ensures
            final(net).wf(),
            final(self).peer_id() == old(self).peer_id(),
            final(self).stream() == old(self).stream(),
            final(self).next_send() as int == (if data.changed() && old(self).next_send()
                < now_ms {
                now_ms + 100
            } else {
                old(self).next_send() as int
            }),
            final(net).events(old(self).peer_id(), old(self).stream()) == Seq::<
                NetUpdate<NetMsg>,
            >::empty(),
            crate::network::only_drains(*old(net), *final(net)),
            forall|sid: i32|
                sid != old(self).stream() ==> #[trigger] final(net).events(
                    old(self).peer_id(),
                    sid,
                ) == old(net).events(old(self).peer_id(), sid),
            forall|h2: i32|
                h2 != old(self).peer_id() ==> final(net).slot(h2) == old(net).slot(h2),
            final(net).next_handle() == old(net).next_handle(),
            old(net).has_handle(old(self).peer_id()) ==> final(net).has_handle(old(self).peer_id())
                && final(net).peer(old(self).peer_id()).is_listener() == old(net).peer(
                old(self).peer_id(),
            ).is_listener() && final(net).peer(old(self).peer_id()).is_bound_spec() == old(
                net,
            ).peer(old(self).peer_id()).is_bound_spec() && final(net).peer(
                old(self).peer_id(),
            ).next_sid() == old(net).peer(old(self).peer_id()).next_sid(),
            !old(net).has_handle(old(self).peer_id()) ==> final(net).slot(old(self).peer_id())
                == old(net).slot(old(self).peer_id()),
            ({
                let msgs = old(net).events(old(self).peer_id(), old(self).stream());
                let k = count_full_reqs(msgs, msgs.len() as int) as int;
                let pre = old(net).outbox_view().len() as int;
                let sending = data.changed() && old(self).next_send() < now_ms;
                if old(net).has_handle(old(self).peer_id()) && old(net).peer(
                    old(self).peer_id(),
                ).is_bound_spec() {
                    &&& final(net).outbox_view().len() == pre + k + (if sending {
                        1int
                    } else {
                        0int
                    })
                    &&& forall|j: int|
                        0 <= j < pre ==> #[trigger] final(net).outbox_view()[j] == old(
                            net,
                        ).outbox_view()[j]
                    &&& forall|j: int|
                        pre <= j < pre + k ==> is_snapshot_envelope(
                            #[trigger] final(net).outbox_view()[j],
                            old(self).peer_id(),
                            old(self).stream(),
                            data.trail(),
                        )
                    &&& sending ==> is_incremental_envelope(
                        final(net).outbox_view()[pre + k],
                        old(self).peer_id(),
                        old(self).stream(),
                        data.trail(),
                    )
                } else {
                    final(net).outbox_view() == old(net).outbox_view()
                }
            }),
    {
        let upds: Vec<NetUpdate<NetMsg>> = net.get_handle_events(self.peer, self.stream_id);
        let ghost msgs = upds@;
        let ghost net1 = *net;
        let ghost was_bound = net1.has_handle(self.peer.0) && net1.peer(self.peer.0).is_bound_spec();
        let ghost pre = net1.outbox_view().len() as int;
        let n: usize = upds.len();
        let mut i: usize = 0;
        while i < n
            invariant
                0 <= i <= n,
                n == msgs.len(),
                upds@ == msgs,
                net.wf(),
                was_bound == (net1.has_handle(self.peer.0) && net1.peer(
                    self.peer.0,
                ).is_bound_spec()),
                pre == net1.outbox_view().len() as int,
                forall|h2: i32| #[trigger] net.slot(h2) == net1.slot(h2),
                net.next_handle() == net1.next_handle(),
                !was_bound ==> net.outbox_view() == net1.outbox_view(),
                was_bound ==> {
                    &&& net.outbox_view().len() == pre + count_full_reqs(msgs, i as int)
                    &&& forall|j: int|
                        0 <= j < pre ==> #[trigger] net.outbox_view()[j] == net1.outbox_view()[j]
                    &&& forall|j: int|
                        pre <= j < net.outbox_view().len() as int ==> is_snapshot_envelope(
                            #[trigger] net.outbox_view()[j],
                            self.peer.0,
                            self.stream_id,
                            data.trail(),
                        )
                },
            decreases n - i,
        {
            match &upds[i] {
                NetUpdate::Data(nd) => {
                    match &nd.msg {
                        NetMsg::Snake(sm) => {
                            match sm {
                                SnakeMsg::FullUpdateReq => {
                                    let snapshot: Vec<Pos> = copy_tail(&data.snake_points, 0);
                                    proof {
                                        assert(snapshot@ =~= data.trail());
                                    }
                                    net.send(
                                        &self.peer,
                                        self.stream_id,
                                        NetMsg::Snake(
                                            SnakeMsg::EndUpdate(
                                                EndUpdateMsg {
                                                    prev_segs: 0,
                                                    prev_segs_sum: 0,
                                                    last_segs: snapshot,
                                                },
                                            ),
                                        ),
                                    );
                                },
                                SnakeMsg::EndUpdate(_) => {},
                            }
                        },
                        _ => {},
                    }
                },
                _ => {},
            }
            i = i + 1;
        }
        if data.points_changed && self.next_send_time < now_ms {
            // Time to send our points update. Only the last two points go in
            // the diff; the checksum over the prefix lets the mirror confirm
            // its unseen history still matches.
            let pts_len: usize = data.snake_points.len();
            if pts_len > 2 {
                let prev: usize = pts_len - 2;
                let sum: i64 = points_sum(&data.snake_points, prev);
                let tail: Vec<Pos> = copy_tail(&data.snake_points, prev);
                net.send(
                    &self.peer,
                    self.stream_id,
                    NetMsg::Snake(
                        SnakeMsg::EndUpdate(
                            EndUpdateMsg { prev_segs: prev, prev_segs_sum: sum, last_segs: tail },
                        ),
                    ),
                );
            } else {
                let snapshot: Vec<Pos> = copy_tail(&data.snake_points, 0);
                proof {
                    assert(snapshot@ =~= data.trail());
                }
                net.send(
                    &self.peer,
                    self.stream_id,
                    NetMsg::Snake(
                        SnakeMsg::EndUpdate(
                            EndUpdateMsg { prev_segs: 0, prev_segs_sum: 0, last_segs: snapshot },
                        ),
                    ),
                );
            }
            self.next_send_time = now_ms + 100;
        }
        proof {
            assert forall|sid: i32|
                sid != old(self).stream() implies #[trigger] final(net).events(
                old(self).peer_id(),
                sid,
            ) == old(net).events(old(self).peer_id(), sid) by {
                assert(net.slot(self.peer.0) == net1.slot(self.peer.0));
                assert(net1.events(self.peer.0, sid) == old(net).events(self.peer.0, sid));
            }
            assert(crate::network::events_preserved(net1, *net));
            crate::network::lemma_only_drains_trans(*old(net), net1, *net);
        }
    }
}


/// One synchronized snake: its trail data and the role behaviors attached to
/// it — at most one of locally-controlled or remotely-controlled, plus any
/// number of outbound replication targets.
pub struct Snake {
    data: SnakeData,
    own_imp: Option<OwnSnakeImp>,
    remote_imp: Option<RemoteSnakeImp>,
    peers: Vec<SnakePeer>,
}

impl Snake {
    /// The trail.
    pub closed spec fn trail(self) -> Seq<Pos> {
        self.data.trail()
    }

    /// The display name.
    pub closed spec fn name_view(self) -> Seq<char> {
        self.data.name_view()
    }

    /// Whether any point changed this frame.
    pub closed spec fn changed(self) -> bool {
        self.data.changed()
    }

    /// Whether this snake is controlled locally.
    pub closed spec fn is_local(self) -> bool {
        self.own_imp is Some
    }

    /// Whether this snake mirrors a remote owner.
    pub closed spec fn is_remote(self) -> bool {
        self.remote_imp is Some
    }

    /// The handle the mirrored owner sits behind (for a remote snake).
    pub closed spec fn source_peer(self) -> i32 {
        self.remote_imp->Some_0.peer_id()
    }

    /// The stream the mirrored owner's diffs arrive on (for a remote snake).
    pub closed spec fn source_stream(self) -> i32 {
        self.remote_imp->Some_0.stream()
    }

    /// How many replication targets are attached.
    pub closed spec fn peer_count(self) -> int {
        self.peers@.len() as int
    }

    /// The attached replication targets, in order: for each, the connection
    /// handle, the dedicated stream, and the earliest time its next update may
    /// be sent.
    pub closed spec fn peer_targets(self) -> Seq<(i32, i32, i64)> {
        self.peers@.map_values(|p: SnakePeer| (p.peer.0, p.stream_id, p.next_send_time))
    }

    /// The trail keeps its two-point minimum, and a snake is never both
    /// locally and remotely controlled.
    pub closed spec fn wf(self) -> bool {
        &&& self.data.wf()
        &&& !(self.own_imp is Some && self.remote_imp is Some)
    }

    /// A locally-controlled snake starting on the given points.
    pub fn new_local(name: &str, start_points: &Vec<Pos>) -> (s: Self)
        requires
            start_points@.len() >= 2,
        ensures
            s.wf(),
            s.trail() == start_points@,
            s.name_view() == name@,
            s.is_local(),
            !s.is_remote(),
            s.peer_count() == 0,
            s.peer_targets() == Seq::<(i32, i32, i64)>::empty(),
            !s.changed(),
    {
        let s = Snake {
            data: SnakeData {
                snake_points: copy_tail(start_points, 0),
                name: name.to_owned(),
                points_changed: false,
            },
            own_imp: Some(OwnSnakeImp {  }),
            remote_imp: None,
            peers: Vec::new(),
        };
        proof {
            assert(s.peer_targets() =~= Seq::<(i32, i32, i64)>::empty());
        }
        s
    }

    /// A mirror of a snake owned by a remote peer, fed by the diffs arriving
    /// on `(peer, stream_id)`.
    pub fn new_remote(name: &str, peer: NetworkHandle, stream_id: i32, start_points: &Vec<Pos>) -> (s:
        Self)
        requires
            start_points@.len() >= 2,
        ensures
            s.wf(),
            s.trail() == start_points@,
            s.name_view() == name@,
            !s.is_local(),
            s.is_remote(),
            s.source_peer() == peer.0,
            s.source_stream() == stream_id,
            s.peer_count() == 0,
            s.peer_targets() == Seq::<(i32, i32, i64)>::empty(),
            !s.changed(),
    {
        let s = Snake {
            data: SnakeData {
                snake_points: copy_tail(start_points, 0),
                name: name.to_owned(),
                points_changed: false,
            },
            own_imp: None,
            remote_imp: Some(RemoteSnakeImp { peer, stream_id }),
            peers: Vec::new(),
        };
        proof {
            assert(s.peer_targets() =~= Seq::<(i32, i32, i64)>::empty());
        }
        s
    }

    /// Attach one more replication target: updates for this snake will go out
    /// on `(peer, stream_id)`, starting unthrottled.
    pub fn add_peer(&mut self, peer: NetworkHandle, stream_id: i32)
        ensures
            final(self).wf() == old(self).wf(),
            final(self).trail() == old(self).trail(),
            final(self).name_view() == old(self).name_view(),
            final(self).changed() == old(self).changed(),
            final(self).is_local() == old(self).is_local(),
            final(self).is_remote() == old(self).is_remote(),
            old(self).is_remote() ==> final(self).source_peer() == old(self).source_peer()
                && final(self).source_stream() == old(self).source_stream(),
            final(self).peer_count() == old(self).peer_count() + 1,
            final(self).peer_targets() == old(self).peer_targets().push(((peer.0, stream_id, 0i64))),
            same_snake_state(*final(self), *old(self)),
    {
        self.peers.push(SnakePeer { peer, stream_id, next_send_time: 0 });
        proof {
            assert(final(self).peer_targets() =~= old(self).peer_targets().push(
                ((peer.0, stream_id, 0i64)),
            ));
        }
    }

    /// The snake's start points: the first two points of its trail.
    pub fn get_start_points(&self) -> (r: Vec<Pos>)
        requires
            self.wf(),
        ensures
            r@ == self.trail().take(2),
    {
        let mut r: Vec<Pos> = Vec::new();
        r.push(self.data.snake_points[0]);
        r.push(self.data.snake_points[1]);
        proof {
            assert(r@ =~= self.trail().take(2));
        }
        r
    }

    /// The trail's points, in order (what the renderer draws).
    pub fn trail_points(&self) -> (r: Vec<Pos>)
        ensures
            r@ == self.trail(),
    {
        let r: Vec<Pos> = copy_tail(&self.data.snake_points, 0);
        proof {
            assert(r@ =~= self.trail());
        }
        r
    }

    /// Per-frame processing: the dirty flag is cleared, the attached role
    /// behaviors run in order (owner tick, mirror tick, then each replication
    /// target in turn), the trail ends exactly where the role transition puts
    /// it, and the outbox gains exactly the mirror's full-update requests
    /// followed by each target's emissions, in target order.
    pub fn think(
        &mut self,
        net: &mut NetworkManager<NetMsg>,
        mouse_down: bool,
        mouse_pos: Pos,
        elapsed_ms: u32,
        now_ms: i64,
        config: &SnakeConfig,
    )
        requires
            old(self).wf(),
            old(net).wf(),
            config.grow_speed as int * elapsed_ms as int <= u32::MAX,
            now_ms <= i64::MAX - 100,
        ensures
            final(self).wf(),
            final(net).wf(),
            final(net).next_handle() == old(net).next_handle(),
            crate::network::only_drains(*old(net), *final(net)),
            final(self).name_view() == old(self).name_view(),
            final(self).is_local() == old(self).is_local(),
            final(self).is_remote() == old(self).is_remote(),
            final(self).peer_count() == old(self).peer_count(),
            old(self).is_local() ==> final(self).trail() == owner_step(
                old(self).trail(),
                mouse_down,
                mouse_pos,
                step_units(config.grow_speed, elapsed_ms),
            ) && final(self).changed() == owner_changes(old(self).trail(), mouse_down, mouse_pos),
            old(self).is_remote() ==> {
                let msgs = old(net).events(old(self).source_peer(), old(self).source_stream());
                &&& final(self).trail() == mirror_trail_after(
                    old(self).trail(),
                    msgs,
                    msgs.len() as int,
                )
                &&& final(self).changed() == mirror_applied_after(
                    old(self).trail(),
                    msgs,
                    msgs.len() as int,
                )
            },
            !old(self).is_local() && !old(self).is_remote() ==> final(self).trail() == old(
                self,
            ).trail() && !final(self).changed(),
            final(self).peer_targets().len() == old(self).peer_targets().len(),
            forall|k: int|
                0 <= k < old(self).peer_targets().len() ==> #[trigger] final(self).peer_targets()[k]
                    == ({
                    let t = old(self).peer_targets()[k];
                    (
                        t.0,
                        t.1,
                        if final(self).changed() && t.2 < now_ms {
                            (now_ms + 100) as i64
                        } else {
                            t.2
                        },
                    )
                }),
            ({
                let s0 = *old(self);
                let net0 = *old(net);
                let changed = final(self).changed();
                let nt = s0.peer_targets().len() as int;
                let pre = net0.outbox_view().len() as int;
                let mbase = pre + mirror_outbox_len(s0, net0) as int;
                &&& final(net).outbox_view().len() == mbase + targets_emitted(
                    s0,
                    net0,
                    changed,
                    now_ms,
                    nt,
                ) as int
                &&& forall|j: int|
                    0 <= j < pre ==> #[trigger] final(net).outbox_view()[j] == net0.outbox_view()[j]
                &&& forall|j: int|
                    pre <= j < mbase ==> #[trigger] final(net).outbox_view()[j]
                        == full_req_envelope(s0.source_peer(), s0.source_stream())
                &&& forall|k: int|
                    0 <= k < nt ==> target_chunk_ok(
                        final(net).outbox_view(),
                        mbase + (#[trigger] targets_emitted(s0, net0, changed, now_ms, k)) as int,
                        s0,
                        net0,
                        changed,
                        now_ms,
                        k,
                        final(self).trail(),
                    )
            }),
    {
        self.data.points_changed = false;
        match &mut self.own_imp {
            Some(own) => {
                own.think(&mut self.data, mouse_down, mouse_pos, elapsed_ms, config);
            },
            None => {},
        }
        match &mut self.remote_imp {
            Some(remote) => {
                remote.think(&mut self.data, net);
            },
            None => {},
        }
        let ghost self_mid = *self;
        let ghost net_mid = *net;
        let ghost s0 = *old(self);
        let ghost net0 = *old(net);
        let ghost changed = self.data.changed();
        let ghost pre = net0.outbox_view().len() as int;
        let ghost mbase = pre + mirror_outbox_len(s0, net0) as int;
        proof {
            assert(crate::network::only_drains(*old(net), net_mid));
            assert(self.peers@ == s0.peers@);
            assert forall|p: i32, st: i32| #[trigger] net_mid.events(p, st) == (
            if drained_before_target(s0, 0, p, st) {
                Seq::<NetUpdate<NetMsg>>::empty()
            } else {
                net0.events(p, st)
            }) by {
                if s0.is_remote() {
                    if p != s0.source_peer() {
                        assert(net_mid.slot(p) == net0.slot(p));
                    }
                }
            }
            assert forall|p: i32| #[trigger] net_mid.is_send_ready(p) == net0.is_send_ready(p) by {
                if s0.is_remote() && p == s0.source_peer() {
                    if !net0.has_handle(p) {
                        assert(net_mid.slot(p) == net0.slot(p));
                    }
                } else if s0.is_remote() {
                    assert(net_mid.slot(p) == net0.slot(p));
                }
            }
            assert(net_mid.outbox_view().len() == mbase);
            assert(forall|j: int|
                0 <= j < pre ==> #[trigger] net_mid.outbox_view()[j] == net0.outbox_view()[j]);
            assert(forall|j: int|
                pre <= j < mbase ==> #[trigger] net_mid.outbox_view()[j] == full_req_envelope(
                    s0.source_peer(),
                    s0.source_stream(),
                ));
        }
        let np: usize = self.peers.len();
        let mut k: usize = 0;
        while k < np
            invariant
                0 <= k <= np,
                np == self.peers@.len(),
                np == s0.peer_targets().len(),
                self.data == self_mid.data,
                self.own_imp == self_mid.own_imp,
                self.remote_imp == self_mid.remote_imp,
                self_mid.data.wf(),
                changed == self_mid.data.changed(),
                net.wf(),
                net.next_handle() == net_mid.next_handle(),
                crate::network::only_drains(net_mid, *net),
                now_ms <= i64::MAX - 100,
                pre == net0.outbox_view().len() as int,
                mbase == pre + mirror_outbox_len(s0, net0) as int,
                forall|j: int| k <= j < np ==> #[trigger] self.peers@[j] == s0.peers@[j],
                forall|j: int|
                    0 <= j < k ==> (#[trigger] self.peers@[j]).peer_id() == s0.peer_targets()[j].0
                        && self.peers@[j].stream() == s0.peer_targets()[j].1
                        && self.peers@[j].next_send() == (
                    if changed && s0.peer_targets()[j].2 < now_ms {
                        (now_ms + 100) as i64
                    } else {
                        s0.peer_targets()[j].2
                    }),
                forall|p: i32, st: i32| #[trigger] net.events(p, st) == (
                if drained_before_target(s0, k as int, p, st) {
                    Seq::<NetUpdate<NetMsg>>::empty()
                } else {
                    net0.events(p, st)
                }),
                forall|p: i32| #[trigger] net.is_send_ready(p) == net0.is_send_ready(p),
                net.outbox_view().len() == mbase + targets_emitted(
                    s0,
                    net0,
                    changed,
                    now_ms,
                    k as int,
                ) as int,
                forall|j: int|
                    0 <= j < pre ==> #[trigger] net.outbox_view()[j] == net0.outbox_view()[j],
                forall|j: int|
                    pre <= j < mbase ==> #[trigger] net.outbox_view()[j] == full_req_envelope(
                        s0.source_peer(),
                        s0.source_stream(),
                    ),
                forall|kk: int|
                    0 <= kk < k ==> target_chunk_ok(
                        net.outbox_view(),
                        mbase + (#[trigger] targets_emitted(s0, net0, changed, now_ms, kk)) as int,
                        s0,
                        net0,
                        changed,
                        now_ms,
                        kk,
                        self_mid.data.trail(),
                    ),
            decreases np - k,
        {
            let ghost net_prev = *net;
            let ghost tk = s0.peer_targets()[k as int];
            proof {
                assert(self.peers@[k as int] == s0.peers@[k as int]);
                assert(tk == (s0.peers@[k as int].peer_id(), s0.peers@[k as int].stream(), s0.peers@[k as int].next_send()));
                assert(net_prev.events(tk.0, tk.1) == target_events(s0, net0, k as int));
            }
            let target: &mut SnakePeer = &mut self.peers[k];
            target.think(&self.data, net, now_ms);
            proof {
                crate::network::lemma_only_drains_trans(net_mid, net_prev, *net);
                let emitted_k = targets_emitted(s0, net0, changed, now_ms, k as int) as int;
                let count_k = target_emit_count(s0, net0, changed, now_ms, k as int) as int;
                assert(net_prev.outbox_view().len() == mbase + emitted_k);
                assert(net_prev.is_send_ready(tk.0) == net0.is_send_ready(tk.0));
                if net0.is_send_ready(tk.0) {
                    assert(net.outbox_view().len() == mbase + emitted_k + count_k);
                } else {
                    assert(net.outbox_view() == net_prev.outbox_view());
                }
                assert(net.outbox_view().len() == mbase + targets_emitted(
                    s0,
                    net0,
                    changed,
                    now_ms,
                    k as int + 1,
                ) as int);
                assert forall|p: i32, st: i32| #[trigger] net.events(p, st) == (
                if drained_before_target(s0, k as int + 1, p, st) {
                    Seq::<NetUpdate<NetMsg>>::empty()
                } else {
                    net0.events(p, st)
                }) by {
                    if p == tk.0 && st == tk.1 {
                        assert(drained_before_target(s0, k as int + 1, p, st));
                    } else {
                        if p == tk.0 {
                            assert(net.events(p, st) == net_prev.events(p, st));
                        } else {
                            assert(net.slot(p) == net_prev.slot(p));
                            assert(net.events(p, st) == net_prev.events(p, st));
                        }
                        assert(drained_before_target(s0, k as int + 1, p, st)
                            == drained_before_target(s0, k as int, p, st)) by {
                            if drained_before_target(s0, k as int + 1, p, st)
                                && !drained_before_target(s0, k as int, p, st) {
                                let j = choose|j: int|
                                    0 <= j < k as int + 1 && (#[trigger] s0.peer_targets()[j]).0
                                        == p && s0.peer_targets()[j].1 == st;
                                assert(j == k as int);
                            }
                        }
                    }
                }
                assert forall|p: i32| #[trigger] net.is_send_ready(p) == net0.is_send_ready(
                    p,
                ) by {
                    assert(net_prev.is_send_ready(p) == net0.is_send_ready(p));
                    if p == tk.0 {
                        if net_prev.has_handle(p) {
                            assert(net.has_handle(p));
                            assert(net.peer(p).is_bound_spec() == net_prev.peer(p).is_bound_spec());
                        } else {
                            assert(net.slot(p) == net_prev.slot(p));
                        }
                    } else {
                        assert(net.slot(p) == net_prev.slot(p));
                    }
                }
                assert forall|j: int|
                    0 <= j < mbase implies #[trigger] net.outbox_view()[j]
                    == net_prev.outbox_view()[j] by {
                    if net0.is_send_ready(tk.0) {
                    } else {
                        assert(net.outbox_view() == net_prev.outbox_view());
                    }
                }
                assert forall|kk: int|
                    0 <= kk < k as int + 1 implies target_chunk_ok(
                    net.outbox_view(),
                    mbase + (#[trigger] targets_emitted(s0, net0, changed, now_ms, kk)) as int,
                    s0,
                    net0,
                    changed,
                    now_ms,
                    kk,
                    self_mid.data.trail(),
                ) by {
                    let start = mbase + targets_emitted(s0, net0, changed, now_ms, kk) as int;
                    if kk < k as int {
                        lemma_targets_emitted_mono(s0, net0, changed, now_ms, kk + 1, k as int);
                        assert forall|j: int|
                            start <= j < net_prev.outbox_view().len() implies #[trigger] net.outbox_view()[j] == net_prev.outbox_view()[j] by {
                            if net0.is_send_ready(tk.0) {
                            } else {
                                assert(net.outbox_view() == net_prev.outbox_view());
                            }
                        }
                    } else {
                        assert(start == mbase + emitted_k);
                        if net0.is_send_ready(tk.0) {
                            assert(self_mid.data.trail() == self.data.trail());
                        }
                    }
                }
            }
            k = k + 1;
        }
        proof {
            crate::network::lemma_only_drains_trans(*old(net), net_mid, *final(net));
            assert(final(self).peer_targets().len() == s0.peer_targets().len());
            assert forall|kk: int|
                0 <= kk < s0.peer_targets().len() implies #[trigger] final(self).peer_targets()[kk]
                == ({
                let t = s0.peer_targets()[kk];
                (
                    t.0,
                    t.1,
                    if final(self).changed() && t.2 < now_ms {
                        (now_ms + 100) as i64
                    } else {
                        t.2
                    },
                )
            }) by {
                assert(final(self).peer_targets()[kk] == (
                    self.peers@[kk].peer_id(),
                    self.peers@[kk].stream(),
                    self.peers@[kk].next_send(),
                ));
            }
        }
    }
}


/// Whether the (handle, stream) pair `(p, st)` is drained before target `k`
/// runs in one frame of `s0`: by the mirror role, or by an earlier target
/// sharing the pair.
pub open spec fn drained_before_target(s0: Snake, k: int, p: i32, st: i32) -> bool {
    ||| (s0.is_remote() && s0.source_peer() == p && s0.source_stream() == st)
    ||| exists|j: int|
        0 <= j < k && (#[trigger] s0.peer_targets()[j]).0 == p && s0.peer_targets()[j].1 == st
}

/// The events target `k` of `s0` drains during one frame: its stream's queue
/// as the frame found it, unless an earlier role drained the pair first.
pub open spec fn target_events(s0: Snake, net0: NetworkManager<NetMsg>, k: int) -> Seq<
    NetUpdate<NetMsg>,
> {
    let t = s0.peer_targets()[k];
    if drained_before_target(s0, k, t.0, t.1) {
        Seq::empty()
    } else {
        net0.events(t.0, t.1)
    }
}

/// How many envelopes target `k` emits in one frame: one snapshot per queued
/// request, plus one incremental diff when the trail changed and the throttle
/// has passed — or nothing at all when its connection is not bound.
pub open spec fn target_emit_count(
    s0: Snake,
    net0: NetworkManager<NetMsg>,
    changed: bool,
    now_ms: i64,
    k: int,
) -> nat {
    let t = s0.peer_targets()[k];
    if net0.is_send_ready(t.0) {
        let msgs = target_events(s0, net0, k);
        count_full_reqs(msgs, msgs.len() as int) + (if changed && t.2 < now_ms {
            1nat
        } else {
            0nat
        })
    } else {
        0
    }
}

/// Total envelopes the first `k` targets emit.
pub open spec fn targets_emitted(
    s0: Snake,
    net0: NetworkManager<NetMsg>,
    changed: bool,
    now_ms: i64,
    k: int,
) -> nat
    decreases k,
{
    if k <= 0 {
        0
    } else {
        targets_emitted(s0, net0, changed, now_ms, k - 1) + target_emit_count(
            s0,
            net0,
            changed,
            now_ms,
            k - 1,
        )
    }
}

/// The emitted-envelope count grows with the number of targets counted.
pub proof fn lemma_targets_emitted_mono(
    s0: Snake,
    net0: NetworkManager<NetMsg>,
    changed: bool,
    now_ms: i64,
    a: int,
    b: int,
)
    requires
        a <= b,
    ensures
        targets_emitted(s0, net0, changed, now_ms, a) <= targets_emitted(
            s0,
            net0,
            changed,
            now_ms,
            b,
        ),
    decreases b - a,
{
    if a < b {
        lemma_targets_emitted_mono(s0, net0, changed, now_ms, a, b - 1);
    }
}

/// What the mirror role alone puts in the outbox: one full-update request per
/// rejected diff, when its connection is bound.
pub open spec fn mirror_outbox_len(s0: Snake, net0: NetworkManager<NetMsg>) -> nat {
    if s0.is_remote() && net0.is_send_ready(s0.source_peer()) {
        let msgs = net0.events(s0.source_peer(), s0.source_stream());
        mirror_rejects_after(s0.trail(), msgs, msgs.len() as int)
    } else {
        0
    }
}

/// The envelopes target `k` contributed to `outbox`, starting at `start`: its
/// snapshots in order, then the incremental diff if one was due. Vacuous when
/// the target's connection is not bound (it then contributed nothing).
pub open spec fn target_chunk_ok(
    outbox: Seq<(i32, NetData<NetMsg>)>,
    start: int,
    s0: Snake,
    net0: NetworkManager<NetMsg>,
    changed: bool,
    now_ms: i64,
    k: int,
    trail: Seq<Pos>,
) -> bool {
    let t = s0.peer_targets()[k];
    let msgs = target_events(s0, net0, k);
    let reqs = count_full_reqs(msgs, msgs.len() as int) as int;
    net0.is_send_ready(t.0) ==> {
        &&& forall|j: int|
            start <= j < start + reqs ==> is_snapshot_envelope(#[trigger] outbox[j], t.0, t.1, trail)
        &&& (changed && t.2 < now_ms) ==> is_incremental_envelope(
            outbox[start + reqs],
            t.0,
            t.1,
            trail,
        )
    }
}


/// Two snake states that differ in nothing a frame can observe: same trail,
/// same name, same roles (and mirror source), same dirty flag. Attaching a
/// replication target preserves this.
pub open spec fn same_snake_state(a: Snake, b: Snake) -> bool {
    &&& a.trail() == b.trail()
    &&& a.name_view() == b.name_view()
    &&& a.changed() == b.changed()
    &&& a.is_local() == b.is_local()
    &&& a.is_remote() == b.is_remote()
    &&& (a.is_remote() ==> a.source_peer() == b.source_peer() && a.source_stream()
        == b.source_stream())
}


/// Mirror reconciliation round trip: when the owner's trail has at least four
/// points and the mirror's stored trail agrees with it on everything before
/// the last two points, the owner's incremental diff (exactly what
/// `is_incremental_envelope` describes) is accepted and leaves the mirror's
/// trail equal to the owner's.
pub proof fn lemma_mirror_roundtrip(owner: Seq<Pos>, mirror: Seq<Pos>)
    requires
        owner.len() >= 4,
        mirror.len() >= owner.len() - 2,
        mirror.take(owner.len() - 2) == owner.take(owner.len() - 2),
    ensures
        end_update_accepted(mirror, owner.len() - 2, prefix_sum(owner, owner.len() - 2), 2),
        apply_end_update_spec(
            mirror,
            owner.len() - 2,
            prefix_sum(owner, owner.len() - 2),
            owner.skip(owner.len() - 2),
        ) == owner,
{
    let n: int = owner.len() - 2;
    assert forall|j: int| 0 <= j < n implies mirror[j] == owner[j] by {
        assert(mirror.take(n)[j] == owner.take(n)[j]);
    }
    crate::checksum::lemma_prefix_sum_unchanged(owner, mirror, n);
    assert(owner.skip(n).len() == 2);
    assert(mirror.take(n) + owner.skip(n) =~= owner);
}

/// Checksum-mismatch detection: if the mirror's stored prefix was corrupted in
/// one point — its coordinate sum no longer matches the owner's — then the
/// owner's next incremental diff is rejected: the mirror's trail stays
/// untouched, and the mirror requests a full update.
pub proof fn lemma_corruption_detected(owner: Seq<Pos>, mirror: Seq<Pos>, i: int)
    requires
        owner.len() >= 4,
        mirror.len() >= owner.len() - 2,
        0 <= i < owner.len() - 2,
        mirror.take(owner.len() - 2) == owner.take(owner.len() - 2).update(i, mirror[i]),
        mirror[i].x + mirror[i].y != owner[i].x + owner[i].y,
    ensures
        !end_update_accepted(mirror, owner.len() - 2, prefix_sum(owner, owner.len() - 2), 2),
        apply_end_update_spec(
            mirror,
            owner.len() - 2,
            prefix_sum(owner, owner.len() - 2),
            owner.skip(owner.len() - 2),
        ) == mirror,
{
    let n: int = owner.len() - 2;
    let corrupted = owner.take(n).update(i, mirror[i]);
    assert forall|j: int| 0 <= j < n implies mirror[j] == corrupted[j] by {
        assert(mirror.take(n)[j] == corrupted[j]);
    }
    crate::checksum::lemma_prefix_sum_unchanged(corrupted, mirror, n);
    assert(owner.take(n)[i] == owner[i]);
    crate::checksum::lemma_prefix_sum_detects_update(owner.take(n), n, i, mirror[i]);
    assert forall|j: int| 0 <= j < n implies owner.take(n)[j] == owner[j] by {}
    crate::checksum::lemma_prefix_sum_unchanged(owner, owner.take(n), n);
}

/// Full-resync recovery: a full snapshot of the owner's trail (keep nothing,
/// checksum of the empty prefix) is accepted from any mirror state whatsoever
/// and leaves the mirror's trail exactly equal to the owner's.
pub proof fn lemma_full_resync(owner: Seq<Pos>, mirror: Seq<Pos>)
    requires
        owner.len() >= 2,
    ensures
        end_update_accepted(mirror, 0, 0, owner.len() as int),
        apply_end_update_spec(mirror, 0, 0, owner) == owner,
{
    assert(mirror.take(0) + owner =~= owner);
}


} // verus!
