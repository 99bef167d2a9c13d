use evnet::message_layer::{
    MessageRouter, MessageWrapper, RegistrationError, RoutingError, SendError, SendType, WireError,
};
use evnet::conditioner::{LinkConditioner, LinkConditionerConfig, LOSS_SCALE};
use evnet::{Peer, Reliability};

fn peer(n: u128) -> Peer {
    Peer::from_u128(n)
}

#[test]
fn envelope_round_trip() {
    let w = MessageWrapper { type_id_hash: 0x0403_0201, content: vec![9, 8, 7] };
    let bytes = w.encode();
    assert_eq!(bytes, vec![1, 2, 3, 4, 3, 0, 0, 0, 0, 0, 0, 0, 9, 8, 7]);
    let back = MessageWrapper::decode(&bytes).unwrap();
    assert_eq!(back.type_id_hash, 0x0403_0201);
    assert_eq!(back.content, vec![9, 8, 7]);
}

#[test]
fn malformed_envelopes_are_rejected() {
    assert!(matches!(MessageWrapper::decode(&vec![1, 2, 3]), Err(WireError::Malformed)));
    let mut bytes = MessageWrapper { type_id_hash: 1, content: vec![5, 6] }.encode();
    bytes.push(0);
    assert!(matches!(MessageWrapper::decode(&bytes), Err(WireError::Malformed)));
}

#[test]
fn fingerprint_is_stable_and_name_dependent() {
    assert_eq!(MessageWrapper::hash("game::Chat"), MessageWrapper::hash("game::Chat"));
    assert_ne!(MessageWrapper::hash("game::Chat"), MessageWrapper::hash("game::Move"));
    let bytes = MessageWrapper::serialize("game::Chat", &vec![1]);
    let w = MessageWrapper::decode(&bytes).unwrap();
    assert_eq!(w.type_id_hash, MessageWrapper::hash("game::Chat"));
    assert_eq!(w.content, vec![1]);
}

#[test]
fn duplicate_registration_is_rejected() {
    let mut r = MessageRouter::new();
    assert_eq!(r.register("game::Chat", Reliability::Reliable), Ok(0));
    assert_eq!(r.register("game::Move", Reliability::Unreliable), Ok(1));
    assert_eq!(
        r.register("game::Chat", Reliability::Unreliable),
        Err(RegistrationError::AlreadyRegistered)
    );
    assert_eq!(r.type_count(), 2);
    assert_eq!(r.reliability_of(0), Some(Reliability::Reliable));
    assert_eq!(r.reliability_of(1), Some(Reliability::Unreliable));
    assert_eq!(r.reliability_of(2), None);
}

#[test]
fn sending_unregistered_type_fails() {
    let mut r = MessageRouter::new();
    assert_eq!(r.send(0, vec![1], SendType::All), Err(SendError::NotRegistered));
}

#[test]
fn send_one_reaches_only_that_peer() {
    let (a, b, c) = (peer(1), peer(2), peer(3));
    let mut ra = MessageRouter::new();
    let t = ra.register("game::Chat", Reliability::Reliable).unwrap();
    ra.send(t, vec![42], SendType::One(b)).unwrap();
    let out = ra.route_outgoing(a, &vec![b, c]);
    assert_eq!(out.len(), 1);
    assert_eq!(out[0].peer, b);
    assert_eq!(out[0].channel, Reliability::Reliable);
    assert!(ra.drain_incoming(t).is_empty());

    let mut rb = MessageRouter::new();
    let tb = rb.register("game::Chat", Reliability::Reliable).unwrap();
    assert_eq!(rb.route_incoming(a, &out[0].bytes), Ok(tb));
    let got = rb.drain_incoming(tb);
    assert_eq!(got.len(), 1);
    assert_eq!(got[0].sender, a);
    assert_eq!(got[0].content, vec![42]);
    assert!(rb.drain_incoming(tb).is_empty());
}

#[test]
fn send_all_reaches_every_peer_and_self_once() {
    let (a, b, c) = (peer(1), peer(2), peer(3));
    let mut ra = MessageRouter::new();
    let t = ra.register("game::Chat", Reliability::UnreliableOrdered).unwrap();
    ra.send(t, vec![7], SendType::All).unwrap();
    let out = ra.route_outgoing(a, &vec![b, c]);
    let targets: Vec<Peer> = out.iter().map(|p| p.peer).collect();
    assert_eq!(targets, vec![b, c]);
    assert!(out.iter().all(|p| p.channel == Reliability::UnreliableOrdered));
    let own = ra.drain_incoming(t);
    assert_eq!(own.len(), 1);
    assert_eq!(own[0].sender, a);
    assert_eq!(own[0].content, vec![7]);
}

#[test]
fn send_all_but_self_skips_sender() {
    let (a, b) = (peer(1), peer(2));
    let mut ra = MessageRouter::new();
    let t = ra.register("game::Chat", Reliability::Unreliable).unwrap();
    ra.send(t, vec![7], SendType::AllButSelf).unwrap();
    let out = ra.route_outgoing(a, &vec![b]);
    assert_eq!(out.len(), 1);
    assert_eq!(out[0].peer, b);
    assert!(ra.drain_incoming(t).is_empty());
}

#[test]
fn send_many_sends_per_mention() {
    let (a, b, c) = (peer(1), peer(2), peer(3));
    let mut ra = MessageRouter::new();
    let t = ra.register("game::Chat", Reliability::Reliable).unwrap();
    ra.send(t, vec![1], SendType::Many(vec![c, b, c])).unwrap();
    let out = ra.route_outgoing(a, &vec![b]);
    let targets: Vec<Peer> = out.iter().map(|p| p.peer).collect();
    assert_eq!(targets, vec![c, b, c]);
}

#[test]
fn unknown_fingerprint_is_reported() {
    let mut r = MessageRouter::new();
    r.register("game::Chat", Reliability::Reliable).unwrap();
    let bytes = MessageWrapper { type_id_hash: MessageWrapper::hash("game::Other"), content: vec![] }.encode();
    assert_eq!(
        r.route_incoming(peer(2), &bytes),
        Err(RoutingError::UnknownFingerprint(MessageWrapper::hash("game::Other")))
    );
    assert_eq!(r.route_incoming(peer(2), &vec![0, 1]), Err(RoutingError::Malformed));
}

#[test]
fn route_messages_isolates_errors_and_keeps_order() {
    let (a, b) = (peer(1), peer(2));
    let mut sender = MessageRouter::new();
    let ts = sender.register("game::Chat", Reliability::Reliable).unwrap();
    sender.send(ts, vec![1], SendType::One(a)).unwrap();
    sender.send(ts, vec![2], SendType::One(a)).unwrap();
    let packets = sender.route_outgoing(b, &vec![a]);

    let mut r = MessageRouter::new();
    let t = r.register("game::Chat", Reliability::Reliable).unwrap();
    r.send(t, vec![3], SendType::AllButSelf).unwrap();
    let received = vec![
        (b, packets[0].bytes.clone()),
        (b, vec![1, 2, 3]),
        (b, packets[1].bytes.clone()),
    ];
    let (out, errors) = r.route_messages(a, &vec![b], &received, &vec![], &vec![]);
    assert_eq!(errors, vec![RoutingError::Malformed]);
    assert_eq!(out.len(), 1);
    assert_eq!(out[0].peer, b);
    let got: Vec<Vec<u8>> = r.drain_incoming(t).into_iter().map(|d| d.content).collect();
    assert_eq!(got, vec![vec![1], vec![2]]);
}

#[test]
fn drain_incoming_keeps_other_types() {
    let a = peer(1);
    let mut r = MessageRouter::new();
    let t0 = r.register("game::Chat", Reliability::Reliable).unwrap();
    let t1 = r.register("game::Move", Reliability::Unreliable).unwrap();
    r.send(t0, vec![1], SendType::All).unwrap();
    r.send(t1, vec![2], SendType::All).unwrap();
    r.route_outgoing(a, &vec![]);
    let first: Vec<Vec<u8>> = r.drain_incoming(t1).into_iter().map(|d| d.content).collect();
    assert_eq!(first, vec![vec![2]]);
    let second: Vec<Vec<u8>> = r.drain_incoming(t0).into_iter().map(|d| d.content).collect();
    assert_eq!(second, vec![vec![1]]);
}

#[test]
fn conditioned_type_passes_its_conditioner() {
    let a = peer(1);
    let mut sender = MessageRouter::new();
    let ts = sender.register("game::Chat", Reliability::Reliable).unwrap();
    sender.send(ts, vec![5], SendType::One(a)).unwrap();
    let packets = sender.route_outgoing(peer(2), &vec![a]);

    let mut lossy = MessageRouter::new();
    let t = lossy.register("game::Chat", Reliability::Reliable).unwrap();
    let drop_all = LinkConditionerConfig { incoming_latency: 0, incoming_jitter: 0, incoming_loss: LOSS_SCALE };
    assert_eq!(lossy.attach_conditioner(7, LinkConditioner::new(drop_all)), Err(SendError::NotRegistered));
    assert_eq!(lossy.attach_conditioner(t, LinkConditioner::new(drop_all)), Ok(()));
    assert_eq!(lossy.route_incoming(peer(2), &packets[0].bytes), Ok(t));
    assert!(lossy.drain_incoming(t).is_empty());

    let mut clean = MessageRouter::new();
    let t = clean.register("game::Chat", Reliability::Reliable).unwrap();
    let pass = LinkConditionerConfig { incoming_latency: 0, incoming_jitter: 0, incoming_loss: 0 };
    clean.attach_conditioner(t, LinkConditioner::new(pass)).unwrap();
    let mut delivered = 0;
    for _ in 0..3 {
        assert_eq!(clean.route_incoming(peer(2), &packets[0].bytes), Ok(t));
        for d in clean.drain_incoming(t) {
            assert_eq!(d.sender, peer(2));
            assert_eq!(d.content, vec![5]);
            delivered += 1;
        }
    }
    assert_eq!(delivered, 3);
}

#[test]
fn route_messages_takes_channels_in_order() {
    let (a, b) = (peer(1), peer(2));
    let mut sender = MessageRouter::new();
    let ts = sender.register("game::Chat", Reliability::Reliable).unwrap();
    for n in 1..=3u8 {
        sender.send(ts, vec![n], SendType::One(a)).unwrap();
    }
    let p = sender.route_outgoing(b, &vec![a]);

    let mut r = MessageRouter::new();
    let t = r.register("game::Chat", Reliability::Reliable).unwrap();
    let (_, errors) = r.route_messages(
        a,
        &vec![b],
        &vec![(b, p[2].bytes.clone())],
        &vec![(b, p[0].bytes.clone()), (b, vec![9])],
        &vec![(b, p[1].bytes.clone())],
    );
    assert_eq!(errors, vec![RoutingError::Malformed]);
    let got: Vec<Vec<u8>> = r.drain_incoming(t).into_iter().map(|d| d.content).collect();
    assert_eq!(got, vec![vec![3], vec![1], vec![2]]);
}

#[test]
fn unconditioned_types_stay_exact_beside_a_conditioned_one() {
    let (a, b) = (peer(1), peer(2));
    let mut r = MessageRouter::new();
    let lossy = r.register("game::Noise", Reliability::Unreliable).unwrap();
    let chat = r.register("game::Chat", Reliability::Reliable).unwrap();
    let drop_all = LinkConditionerConfig { incoming_latency: 0, incoming_jitter: 0, incoming_loss: LOSS_SCALE };
    r.attach_conditioner(lossy, LinkConditioner::new(drop_all)).unwrap();
    r.send(chat, vec![4], SendType::All).unwrap();
    let noise = MessageWrapper::serialize("game::Noise", &vec![0]);
    let chat_in = MessageWrapper::serialize("game::Chat", &vec![5]);
    let (out, errors) = r.route_messages(a, &vec![b], &vec![(b, chat_in)], &vec![(b, noise)], &vec![]);
    assert!(errors.is_empty());
    assert_eq!(out.len(), 1);
    assert!(r.drain_incoming(lossy).is_empty());
    let got: Vec<(Peer, Vec<u8>)> = r.drain_incoming(chat).into_iter().map(|d| (d.sender, d.content)).collect();
    assert_eq!(got, vec![(b, vec![5]), (a, vec![4])]);
}

#[test]
fn conditioned_delivery_follows_release_times() {
    let (a, b) = (peer(1), peer(2));
    let mut r = MessageRouter::new();
    let t = r.register("game::Chat", Reliability::Reliable).unwrap();
    let delayed = LinkConditionerConfig { incoming_latency: 50, incoming_jitter: 20, incoming_loss: 0 };
    r.attach_conditioner(t, LinkConditioner::new(delayed)).unwrap();
    let first = MessageWrapper::serialize("game::Chat", &vec![1]);
    let second = MessageWrapper::serialize("game::Chat", &vec![2]);
    assert_eq!(r.route_incoming_at(a, &first, 100, 1, 20), Ok(t));
    assert!(r.drain_incoming(t).is_empty());
    assert_eq!(r.route_incoming_at(b, &second, 110, 1, -20), Ok(t));
    assert!(r.drain_incoming(t).is_empty());
    assert_eq!(r.route_incoming_at(b, &vec![0], 170, 1, 0), Err(RoutingError::Malformed));
    assert_eq!(r.route_incoming_at(a, &first, 170, 1, 0), Ok(t));
    let got: Vec<(Peer, Vec<u8>)> = r.drain_incoming(t).into_iter().map(|d| (d.sender, d.content)).collect();
    assert_eq!(got, vec![(b, vec![2]), (a, vec![1])]);
    assert_eq!(r.route_incoming_at(a, &first, 220, 1, 0), Ok(t));
    let got: Vec<Vec<u8>> = r.drain_incoming(t).into_iter().map(|d| d.content).collect();
    assert_eq!(got, vec![vec![1]]);
}
