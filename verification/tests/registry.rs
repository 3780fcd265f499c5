//! The connection registry: handle lifecycle, stream-id parity, event
//! demultiplexing, drain-on-poll, and fire-and-forget sends.

use snake_sync::messages::NetMsg;
use snake_sync::network::{NetData, NetUpdate, NetworkHandle, NetworkManager};

#[test]
fn handles_are_active_or_closed_never_undefined() {
    let mut net: NetworkManager<NetMsg> = NetworkManager::new();
    let h1 = net.connect("room");
    assert_eq!(h1.id(), 1);
    let h2 = net.listen("room");
    assert_eq!(h2.id(), 2);

    // Lookups under a never-allocated handle are no-ops with empty results.
    let unknown = NetworkHandle::from_correlator(99);
    assert!(net.new_stream_id(unknown).is_none());
    assert!(net.get_handle_events(unknown, 0).is_empty());
    assert!(net.new_stream_id(NetworkHandle::invalid()).is_none());

    // An active handle answers.
    assert_eq!(net.new_stream_id(h1), Some(2));

    // A closed handle degrades to no-ops, and closing again is a no-op too.
    net.close(h1);
    assert!(net.new_stream_id(h1).is_none());
    assert!(net.get_handle_events(h1, 0).is_empty());
    net.close(h1);

    // Closed handles are never reused.
    let h3 = net.accept_connection();
    assert_eq!(h3.id(), 3);
}

#[test]
fn stream_id_parity_never_intersects() {
    let mut listener_side: NetworkManager<NetMsg> = NetworkManager::new();
    let lh = listener_side.listen("room");
    let mut listener_ids = Vec::new();
    for _ in 0..3 {
        listener_ids.push(listener_side.new_stream_id(lh).unwrap());
    }
    assert_eq!(listener_ids, vec![1, 3, 5]);

    let mut connector_side: NetworkManager<NetMsg> = NetworkManager::new();
    let ch = connector_side.connect("room");
    let mut connector_ids = Vec::new();
    for _ in 0..3 {
        connector_ids.push(connector_side.new_stream_id(ch).unwrap());
    }
    assert_eq!(connector_ids, vec![2, 4, 6]);

    for a in &listener_ids {
        for b in &connector_ids {
            assert_ne!(a, b);
        }
    }

    // A connection accepted by a listener issues odd ids as well.
    let mut host: NetworkManager<NetMsg> = NetworkManager::new();
    let hc = host.accept_connection();
    assert_eq!(host.new_stream_id(hc), Some(1));
}

#[test]
fn poll_drains_in_arrival_order() {
    let mut net: NetworkManager<NetMsg> = NetworkManager::new();
    let h = net.connect("room");
    net.deliver(
        h,
        5,
        NetUpdate::Data(NetData { stream_id: 5, msg: NetMsg::Ping(1) }),
    );
    net.deliver(h, 5, NetUpdate::Closed);
    net.deliver(h, 7, NetUpdate::ListenFail);

    let evs = net.get_handle_events(h, 5);
    assert_eq!(
        evs,
        vec![
            NetUpdate::Data(NetData { stream_id: 5, msg: NetMsg::Ping(1) }),
            NetUpdate::Closed,
        ]
    );

    // Two consecutive polls with no intervening arrival: the second is empty.
    assert!(net.get_handle_events(h, 5).is_empty());

    // Other streams are untouched by the drain.
    assert_eq!(net.get_handle_events(h, 7), vec![NetUpdate::ListenFail]);
    assert!(net.get_handle_events(h, 7).is_empty());
}

#[test]
fn deliver_to_unknown_handle_is_dropped() {
    let mut net: NetworkManager<NetMsg> = NetworkManager::new();
    let h = net.connect("room");
    net.close(h);
    net.deliver(h, 0, NetUpdate::NewPeer(7));
    assert!(net.get_handle_events(h, 0).is_empty());
}

#[test]
fn sends_are_fire_and_forget() {
    let mut net: NetworkManager<NetMsg> = NetworkManager::new();
    let h = net.connect("room");

    // Before the handshake binds a connection, sends are dropped.
    net.send(&h, 0, NetMsg::Ping(9));
    assert!(net.take_outbox().is_empty());

    net.bind(h);
    net.send(&h, 3, NetMsg::Ping(9));
    let out = net.take_outbox();
    assert_eq!(out.len(), 1);
    assert_eq!(out[0].0, 1);
    assert_eq!(out[0].1, NetData { stream_id: 3, msg: NetMsg::Ping(9) });
    assert!(net.take_outbox().is_empty());

    // After close, sends are dropped again.
    net.close(h);
    net.send(&h, 3, NetMsg::Ping(9));
    assert!(net.take_outbox().is_empty());
}
