use evnet::peer_tracking::{resolve_me, PeerTracker, CONNECT_SETTLE_ROUNDS};
use evnet::{
    connected, first_peer_connected, just_connected, ConnectRequest, MeRes, NetworkedCommandExt,
    Peer, PeerConnected, PeerDisconnected, Reliability,
};

#[test]
fn reliability_channels_are_fixed() {
    assert_eq!(Reliability::try_new(0), Some(Reliability::Reliable));
    assert_eq!(Reliability::try_new(1), Some(Reliability::Unreliable));
    assert_eq!(Reliability::try_new(2), Some(Reliability::UnreliableOrdered));
    assert_eq!(Reliability::try_new(3), None);
    assert_eq!(Reliability::UnreliableOrdered.channel(), 2);
}

#[test]
fn connect_request_opens_three_channels() {
    let mut req: Option<ConnectRequest> = None;
    req.connect("wss://example.org/room-1");
    let req = req.unwrap();
    let mut again = Some(ConnectRequest::new("wss://example.org/old"));
    again.connect("wss://example.org/new");
    assert_eq!(again.unwrap().room_url, "wss://example.org/new");
    assert_eq!(req.room_url, "wss://example.org/room-1");
    assert_eq!(req.channels.len(), 3);
    assert!(req.channels[0].ordered && req.channels[0].max_retransmits.is_none());
    assert!(!req.channels[1].ordered && req.channels[1].max_retransmits == Some(0));
    assert!(req.channels[2].ordered && req.channels[2].max_retransmits == Some(0));
}

#[test]
fn me_is_resolved_once() {
    let a = Peer::from_u128(1);
    let b = Peer::from_u128(2);
    assert_eq!(resolve_me(None, None), None);
    let me = resolve_me(None, Some(a));
    assert_eq!(me, Some(MeRes(a)));
    assert_eq!(resolve_me(me, Some(b)), Some(MeRes(a)));
    assert_eq!(me.unwrap().get(), a);
    assert!(connected(me));
    assert!(!connected(None));
}

#[test]
fn latches_fire_once() {
    let mut fired = false;
    assert!(!just_connected(&mut fired, None));
    assert!(just_connected(&mut fired, Some(MeRes(Peer::from_u128(1)))));
    assert!(!just_connected(&mut fired, Some(MeRes(Peer::from_u128(1)))));
    let mut first = false;
    assert!(!first_peer_connected(&mut first, &vec![]));
    assert!(first_peer_connected(&mut first, &vec![PeerConnected(Peer::from_u128(2))]));
    assert!(!first_peer_connected(&mut first, &vec![PeerConnected(Peer::from_u128(3))]));
}

#[test]
fn disconnects_are_announced_once() {
    let (a, b) = (Peer::from_u128(1), Peer::from_u128(2));
    let mut t = PeerTracker::new();
    let ev = t.update_disconnected(&vec![a, a, b]);
    assert_eq!(ev, vec![PeerDisconnected(a), PeerDisconnected(b)]);
    assert!(t.update_disconnected(&vec![b, a]).is_empty());
    assert_eq!(ev[0].get(), a);
}

#[test]
fn connects_are_announced_after_settling() {
    let (a, b) = (Peer::from_u128(1), Peer::from_u128(2));
    let mut t = PeerTracker::new();
    let mut announced = Vec::new();
    for round in 0..CONNECT_SETTLE_ROUNDS + 5 {
        let peers = if round < 3 { vec![a] } else { vec![a, b] };
        let ev = t.update_connected(&peers);
        for e in &ev {
            announced.push((round, e.get()));
        }
    }
    assert_eq!(announced, vec![(CONNECT_SETTLE_ROUNDS - 1, a), (CONNECT_SETTLE_ROUNDS + 2, b)]);
}

#[test]
fn reconnect_and_second_disconnect_are_announced() {
    let a = Peer::from_u128(1);
    let mut t = PeerTracker::new();
    let mut connects = 0;
    for _ in 0..CONNECT_SETTLE_ROUNDS {
        connects += t.update_connected(&vec![a]).len();
    }
    assert_eq!(connects, 1);
    assert_eq!(t.update_disconnected(&vec![a]), vec![PeerDisconnected(a)]);
    for _ in 0..CONNECT_SETTLE_ROUNDS {
        connects += t.update_connected(&vec![a]).len();
    }
    assert_eq!(connects, 2);
    assert_eq!(t.update_disconnected(&vec![a]), vec![PeerDisconnected(a)]);
}
