//! The game session: host/client roles, the stream-0 introduction protocol,
//! start-point claiming, and latency probes.

use snake_sync::game::{GameConfig, GameSession};
use snake_sync::geom::Pos;
use snake_sync::messages::NetMsg;
use snake_sync::network::{NetUpdate, NetworkHandle};
use snake_sync::snake::SnakeConfig;

fn pos(x: i32, y: i32) -> Pos {
    Pos { x, y }
}

fn config() -> GameConfig {
    GameConfig { snake: SnakeConfig { grow_speed: 100 } }
}

#[test]
fn host_takes_the_first_start_points() {
    let mut host = GameSession::new();
    host.be_host("room");
    assert_eq!(host.snake_count(), 1);
    assert_eq!(host.snake_trail(0), vec![pos(200, 200), pos(300, 300)]);
}

#[test]
fn consume_start_points_removes_each_set_once() {
    let mut session = GameSession::new();
    let set = vec![pos(600, 200), pos(500, 300)];
    assert!(session.consume_start_points(&set));
    assert!(!session.consume_start_points(&set));
    assert!(!session.consume_start_points(&vec![pos(1, 1), pos(2, 2)]));
}

#[test]
fn ping_is_dropped_without_a_bound_connection() {
    let mut session = GameSession::new();
    session.be_client("room");
    session.ping_connections(5000);
    assert!(session.network().take_outbox().is_empty());

    // Once the handshake binds the connection, the probe goes out positive.
    let connect = NetworkHandle::from_correlator(1);
    session.network().bind(connect);
    session.ping_connections(5000);
    let out = session.network().take_outbox();
    assert_eq!(out.len(), 1);
    assert_eq!(out[0].1.stream_id, 0);
    assert_eq!(out[0].1.msg, NetMsg::Ping(5000));
}

#[test]
fn ping_requests_are_echoed_negated() {
    let mut client = GameSession::new();
    client.be_client("room");
    let connect = NetworkHandle::from_correlator(1);
    client.network().bind(connect);
    client.network().deliver(
        connect,
        0,
        NetUpdate::Data(snake_sync::network::NetData { stream_id: 0, msg: NetMsg::Ping(777) }),
    );
    client.think(false, pos(0, 0), 0, 0, &config());
    let out = client.network().take_outbox();
    assert_eq!(out.len(), 1);
    assert_eq!(out[0].1.msg, NetMsg::Ping(-777));
}

#[test]
fn handshake_introduces_snakes_on_both_sides() {
    let cfg = config();

    // Host opens a listener (handle 1 on its side) and owns "Myself".
    let mut host = GameSession::new();
    host.be_host("room");
    let host_listen = NetworkHandle::from_correlator(1);

    // Client begins an outbound connection (handle 1 on its side); the
    // transport completes the handshake and binds it.
    let mut client = GameSession::new();
    client.be_client("room");
    let client_connect = NetworkHandle::from_correlator(1);
    client.network().bind(client_connect);

    // On the host, the transport accepts the inbound connection under a fresh
    // handle and announces it on the listener's queue.
    let host_client = host.network().accept_connection();
    assert_eq!(host_client.id(), 2);
    host.network().deliver(host_listen, 0, NetUpdate::NewPeer(host_client.id()));

    // The host now advertises start points and introduces its snake.
    host.think(false, pos(0, 0), 0, 0, &cfg);
    let to_client = host.network().take_outbox();
    assert_eq!(to_client.len(), 2);
    for (handle, envelope) in to_client {
        assert_eq!(handle, host_client.id());
        let stream = envelope.stream_id;
        client.network().deliver(client_connect, stream, NetUpdate::Data(envelope));
    }

    // The client claims the first advertised set (the host kept the original
    // first one for itself), mirrors the host's snake, and answers with its
    // own introduction.
    client.think(false, pos(0, 0), 0, 0, &cfg);
    assert_eq!(client.snake_count(), 2);
    assert_eq!(client.snake_trail(0), vec![pos(600, 200), pos(500, 300)]);
    assert_eq!(client.snake_trail(1), vec![pos(200, 200), pos(300, 300)]);

    let to_host = client.network().take_outbox();
    assert_eq!(to_host.len(), 1);
    for (_, envelope) in to_host {
        let stream = envelope.stream_id;
        host.network().deliver(host_client, stream, NetUpdate::Data(envelope));
    }

    // The host mirrors the client's snake and retires the claimed set.
    host.think(false, pos(0, 0), 0, 0, &cfg);
    assert_eq!(host.snake_count(), 2);
    assert_eq!(host.snake_trail(1), vec![pos(600, 200), pos(500, 300)]);
    assert!(!host.consume_start_points(&vec![pos(600, 200), pos(500, 300)]));

    // Replication now flows: the host grows its snake, the update reaches the
    // client's mirror, and the trails agree.
    host.think(true, pos(400, 400), 1000, 1000, &cfg);
    let updates = host.network().take_outbox();
    assert_eq!(updates.len(), 1);
    for (handle, envelope) in updates {
        assert_eq!(handle, host_client.id());
        let stream = envelope.stream_id;
        client.network().deliver(client_connect, stream, NetUpdate::Data(envelope));
    }
    client.think(false, pos(0, 0), 0, 1000, &cfg);
    assert_eq!(client.snake_trail(1), host.snake_trail(0));
    assert_eq!(
        client.snake_trail(1),
        vec![pos(200, 200), pos(370, 370), pos(370, 370)]
    );
}

#[test]
fn host_side_ping_is_echoed_to_its_sender() {
    // A probe arriving on the accepted-client connection is answered on that
    // same connection.
    let mut host = GameSession::new();
    host.be_host("room");
    let host_client = host.network().accept_connection();
    assert_eq!(host_client.id(), 2);
    host.network().deliver(
        host_client,
        0,
        NetUpdate::Data(snake_sync::network::NetData { stream_id: 0, msg: NetMsg::Ping(42) }),
    );
    host.network().deliver(
        NetworkHandle::from_correlator(1),
        0,
        NetUpdate::NewPeer(host_client.id()),
    );
    host.think(false, pos(0, 0), 0, 0, &config());
    let out = host.network().take_outbox();
    // The handshake sends start points and one introduction; the ping reply
    // follows, addressed to the connection the probe came from.
    let replies: Vec<_> = out
        .iter()
        .filter(|(_, e)| matches!(e.msg, NetMsg::Ping(_)))
        .collect();
    assert_eq!(replies.len(), 1);
    assert_eq!(replies[0].0, host_client.id());
    assert_eq!(replies[0].1.msg, NetMsg::Ping(-42));
}
