//! The trail-synchronization protocol: diff application, checksum guarding,
//! owner growth and shrink, throttled replication, and the full-resync round
//! trip between an owner and a corrupted mirror.

use snake_sync::checksum::points_sum;
use snake_sync::geom::{advance_toward, dist_sq, isqrt, Pos};
use snake_sync::messages::NetMsg;
use snake_sync::network::{NetUpdate, NetworkHandle, NetworkManager};
use snake_sync::snake::{apply_end_update, EndUpdateMsg, Snake, SnakeConfig};

fn pos(x: i32, y: i32) -> Pos {
    Pos { x, y }
}

#[test]
fn squared_distance_and_integer_square_root() {
    assert_eq!(dist_sq(pos(0, 0), pos(3, 4)), 25);
    assert_eq!(dist_sq(pos(300, 300), pos(400, 400)), 20000);
    assert_eq!(isqrt(0), 0);
    assert_eq!(isqrt(1), 1);
    assert_eq!(isqrt(3), 1);
    assert_eq!(isqrt(4), 2);
    assert_eq!(isqrt(20000), 141);
}

#[test]
fn advance_clamps_at_the_target() {
    assert_eq!(advance_toward(pos(0, 0), pos(3, 4), 5), pos(3, 4));
    assert_eq!(advance_toward(pos(0, 0), pos(3, 4), 99), pos(3, 4));
    assert_eq!(advance_toward(pos(5, 5), pos(5, 5), 10), pos(5, 5));
}

#[test]
fn advance_moves_along_the_line() {
    // 100 units from (300,300) toward (400,400): 100*100/141 = 70 per axis.
    assert_eq!(advance_toward(pos(300, 300), pos(400, 400), 100), pos(370, 370));
    // Purely horizontal movement is exact.
    assert_eq!(advance_toward(pos(0, 0), pos(100, 0), 30), pos(30, 0));
}

#[test]
fn checksum_sums_x_and_y_over_the_prefix() {
    let pts = vec![pos(1, 2), pos(3, 4), pos(5, 6)];
    assert_eq!(points_sum(&pts, 0), 0);
    assert_eq!(points_sum(&pts, 2), 10);
    assert_eq!(points_sum(&pts, 3), 21);
    assert_eq!(points_sum(&vec![pos(-5, 3)], 1), -2);
}

#[test]
fn mirror_roundtrip_applies_incremental_diff_exactly() {
    let owner = vec![pos(0, 0), pos(10, 10), pos(20, 20), pos(30, 30)];
    // The mirror agrees on the prefix but lags on the last two points.
    let mut mirror = vec![pos(0, 0), pos(10, 10), pos(99, 1), pos(7, 7)];
    let diff = EndUpdateMsg {
        prev_segs: 2,
        prev_segs_sum: 20,
        last_segs: vec![pos(20, 20), pos(30, 30)],
    };
    assert!(apply_end_update(&mut mirror, &diff));
    assert_eq!(mirror, owner);
}

#[test]
fn corrupted_prefix_rejects_the_diff() {
    // One coordinate of the stored prefix was mutated: 10 -> 11.
    let mut mirror = vec![pos(0, 0), pos(10, 11), pos(20, 20), pos(30, 30)];
    let before = mirror.clone();
    let diff = EndUpdateMsg {
        prev_segs: 2,
        prev_segs_sum: 20,
        last_segs: vec![pos(20, 20), pos(30, 30)],
    };
    assert!(!apply_end_update(&mut mirror, &diff));
    assert_eq!(mirror, before);

    // The owner's full snapshot then heals the mirror completely.
    let owner = vec![pos(0, 0), pos(10, 10), pos(20, 20), pos(30, 30)];
    let full = EndUpdateMsg { prev_segs: 0, prev_segs_sum: 0, last_segs: owner.clone() };
    assert!(apply_end_update(&mut mirror, &full));
    assert_eq!(mirror, owner);
}

#[test]
fn too_short_trail_rejects_the_diff() {
    let mut mirror = vec![pos(0, 0), pos(10, 10)];
    let diff = EndUpdateMsg { prev_segs: 5, prev_segs_sum: 0, last_segs: vec![pos(1, 1)] };
    assert!(!apply_end_update(&mut mirror, &diff));
    assert_eq!(mirror, vec![pos(0, 0), pos(10, 10)]);
}

#[test]
fn diff_below_two_points_is_rejected() {
    let mut mirror = vec![pos(0, 0), pos(10, 10)];
    let diff = EndUpdateMsg { prev_segs: 0, prev_segs_sum: 0, last_segs: vec![pos(1, 1)] };
    assert!(!apply_end_update(&mut mirror, &diff));
    assert_eq!(mirror, vec![pos(0, 0), pos(10, 10)]);
}

#[test]
fn owner_growth_splits_long_segments() {
    // Pressed at (400,400), growSpeed 100, one second elapsed: the head
    // advances 100 units toward the pointer; being more than 20 units from
    // (300,300), a duplicate head is appended.
    let mut net: NetworkManager<NetMsg> = NetworkManager::new();
    let cfg = SnakeConfig { grow_speed: 100 };
    let mut s = Snake::new_local("me", &vec![pos(200, 200), pos(300, 300)]);
    s.think(&mut net, true, pos(400, 400), 1000, 0, &cfg);
    assert_eq!(
        s.trail_points(),
        vec![pos(200, 200), pos(370, 370), pos(370, 370)]
    );
}

#[test]
fn owner_growth_within_threshold_does_not_split() {
    let mut net: NetworkManager<NetMsg> = NetworkManager::new();
    let cfg = SnakeConfig { grow_speed: 100 };
    let mut s = Snake::new_local("me", &vec![pos(200, 200), pos(300, 300), pos(305, 300)]);
    // 10 ms at speed 100 moves the head 1 unit toward the pointer; it ends 6
    // units from the segment's start, so no new segment begins.
    s.think(&mut net, true, pos(310, 300), 10, 0, &cfg);
    assert_eq!(s.trail_points(), vec![pos(200, 200), pos(300, 300), pos(306, 300)]);
}

#[test]
fn owner_shrink_drops_the_reached_point() {
    // Released, with enough elapsed time for the head to reach (300,300)
    // exactly: the last point is dropped.
    let mut net: NetworkManager<NetMsg> = NetworkManager::new();
    let cfg = SnakeConfig { grow_speed: 100 };
    let mut s = Snake::new_local("me", &vec![pos(200, 200), pos(300, 300), pos(305, 305)]);
    s.think(&mut net, false, pos(0, 0), 1000, 0, &cfg);
    assert_eq!(s.trail_points(), vec![pos(200, 200), pos(300, 300)]);
}

#[test]
fn owner_never_shrinks_below_two_points() {
    let mut net: NetworkManager<NetMsg> = NetworkManager::new();
    let cfg = SnakeConfig { grow_speed: 100 };
    let mut s = Snake::new_local("me", &vec![pos(200, 200), pos(300, 300)]);
    s.think(&mut net, false, pos(0, 0), 1000, 0, &cfg);
    assert_eq!(s.trail_points(), vec![pos(200, 200), pos(300, 300)]);
}

/// Move every envelope queued on `from` over to `to`, as the transport would.
fn shuttle(
    from: &mut NetworkManager<NetMsg>,
    to: &mut NetworkManager<NetMsg>,
    to_handle: NetworkHandle,
) -> usize {
    let out = from.take_outbox();
    let n = out.len();
    for (_, envelope) in out {
        let stream = envelope.stream_id;
        to.deliver(to_handle, stream, NetUpdate::Data(envelope));
    }
    n
}

#[test]
fn corrupted_mirror_recovers_through_full_resync() {
    let cfg = SnakeConfig { grow_speed: 100 };

    // Owner side: one bound connection, one snake replicating on stream 2.
    let mut net_o: NetworkManager<NetMsg> = NetworkManager::new();
    let ho = net_o.connect("room");
    net_o.bind(ho);
    let mut owner = Snake::new_local("a", &vec![pos(200, 200), pos(300, 300)]);
    owner.add_peer(ho, 2);

    // Mirror side: its stored trail was corrupted (300 -> 301 in one point).
    let mut net_m: NetworkManager<NetMsg> = NetworkManager::new();
    let hm = net_m.connect("room");
    net_m.bind(hm);
    let mut mirror = Snake::new_remote("a", hm, 2, &vec![pos(200, 201), pos(300, 300)]);

    // The owner grows and ships an incremental diff.
    owner.think(&mut net_o, true, pos(400, 400), 1000, 1000, &cfg);
    assert_eq!(shuttle(&mut net_o, &mut net_m, hm), 1);

    // The mirror's prefix checksum does not match: the diff is discarded and a
    // full update is requested.
    mirror.think(&mut net_m, false, pos(0, 0), 0, 1000, &cfg);
    assert_eq!(mirror.trail_points(), vec![pos(200, 201), pos(300, 300)]);
    assert_eq!(shuttle(&mut net_m, &mut net_o, ho), 1);

    // The owner answers with a full snapshot (its trail unchanged this frame:
    // the pointer sits exactly on the head).
    owner.think(&mut net_o, true, pos(370, 370), 1000, 1050, &cfg);
    assert_eq!(shuttle(&mut net_o, &mut net_m, hm), 1);

    // The snapshot heals the mirror: both trails are now identical.
    mirror.think(&mut net_m, false, pos(0, 0), 0, 1100, &cfg);
    assert_eq!(mirror.trail_points(), owner.trail_points());
    assert_eq!(
        mirror.trail_points(),
        vec![pos(200, 200), pos(370, 370), pos(370, 370)]
    );
}

#[test]
fn updates_are_throttled_to_one_per_hundred_ms() {
    let cfg = SnakeConfig { grow_speed: 100 };
    let mut net: NetworkManager<NetMsg> = NetworkManager::new();
    let h = net.connect("room");
    net.bind(h);
    let mut s = Snake::new_local("a", &vec![pos(200, 200), pos(300, 300)]);
    s.add_peer(h, 2);

    // First change at t=1000 ships an update.
    s.think(&mut net, true, pos(400, 400), 100, 1000, &cfg);
    assert_eq!(net.take_outbox().len(), 1);

    // Another change 50 ms later is held back.
    s.think(&mut net, true, pos(400, 400), 100, 1050, &cfg);
    assert_eq!(net.take_outbox().len(), 0);

    // After the 100 ms window it flows again.
    s.think(&mut net, true, pos(400, 400), 100, 1200, &cfg);
    assert_eq!(net.take_outbox().len(), 1);
}

#[test]
fn synced_mirror_tracks_incremental_updates() {
    let cfg = SnakeConfig { grow_speed: 100 };
    let mut net_o: NetworkManager<NetMsg> = NetworkManager::new();
    let ho = net_o.connect("room");
    net_o.bind(ho);
    let mut owner = Snake::new_local("a", &vec![pos(200, 200), pos(300, 300)]);
    owner.add_peer(ho, 2);

    let mut net_m: NetworkManager<NetMsg> = NetworkManager::new();
    let hm = net_m.connect("room");
    net_m.bind(hm);
    let mut mirror = Snake::new_remote("a", hm, 2, &vec![pos(200, 200), pos(300, 300)]);

    // Two growth frames, each shipped and applied.
    owner.think(&mut net_o, true, pos(400, 400), 1000, 1000, &cfg);
    shuttle(&mut net_o, &mut net_m, hm);
    mirror.think(&mut net_m, false, pos(0, 0), 0, 1000, &cfg);
    assert_eq!(mirror.trail_points(), owner.trail_points());

    owner.think(&mut net_o, true, pos(400, 400), 500, 2000, &cfg);
    shuttle(&mut net_o, &mut net_m, hm);
    mirror.think(&mut net_m, false, pos(0, 0), 0, 2000, &cfg);
    assert_eq!(mirror.trail_points(), owner.trail_points());
}
