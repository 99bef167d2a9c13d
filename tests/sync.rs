use evnet::component_sync_layer::{
    ApplyOutcome, Authority, ClaimError, NetworkEntityMapper, NetworkId, SyncMsg,
};
use evnet::message_layer::{MessageRouter, SendType};
use evnet::{Peer, Reliability};

fn pos(x: f32, y: f32, z: f32) -> Vec<u8> {
    let mut v = Vec::new();
    v.extend_from_slice(&x.to_le_bytes());
    v.extend_from_slice(&y.to_le_bytes());
    v.extend_from_slice(&z.to_le_bytes());
    v
}

fn msg(id: NetworkId, authority: u32, data: Vec<u8>) -> SyncMsg {
    SyncMsg { network_id: id, authority: Authority(authority), data }
}

fn remote() -> Peer {
    Peer::from_u128(99)
}

fn me() -> Peer {
    Peer::from_u128(42)
}

fn remote_with(id: NetworkId, authority: u32, data: Vec<u8>) -> NetworkEntityMapper {
    let mut m = NetworkEntityMapper::new();
    m.apply_spawn(msg(id, authority, data), remote());
    m
}

#[test]
fn sync_msg_round_trip() {
    let id = NetworkId::from_parts(0x0102_0304, Peer::from_u128(0xAABB));
    let m = msg(id, 7, vec![1, 2, 3]);
    let bytes = m.encode();
    assert_eq!(bytes.len(), 35);
    assert_eq!(&bytes[0..4], &[4, 3, 2, 1]);
    assert_eq!(&bytes[4..6], &[0xBB, 0xAA]);
    assert_eq!(&bytes[20..24], &[7, 0, 0, 0]);
    assert_eq!(&bytes[24..32], &[3, 0, 0, 0, 0, 0, 0, 0]);
    let back = SyncMsg::decode(&bytes).unwrap();
    assert_eq!(back.network_id, id);
    assert_eq!(back.authority, Authority(7));
    assert_eq!(back.data, vec![1, 2, 3]);
    assert!(SyncMsg::decode(&bytes[..34].to_vec()).is_none());
}

#[test]
fn new_network_id_is_owned_by_me() {
    let me = Peer::from_u128(5);
    assert_eq!(NetworkId::new(me).owner(), me);
}

#[test]
fn update_for_unmapped_id_is_ignored() {
    let mut m = NetworkEntityMapper::new();
    let id = NetworkId::from_parts(1, Peer::from_u128(1));
    assert_eq!(m.apply_update(msg(id, 3, vec![1]), remote()), ApplyOutcome::Unmapped);
    assert_eq!(m.len(), 0);
}

#[test]
fn higher_authority_takes_over() {
    let id = NetworkId::from_parts(1, Peer::from_u128(1));
    let mut m = NetworkEntityMapper::new();
    assert!(m.spawn_local(id, vec![0]));
    assert!(!m.spawn_local(id, vec![0]));
    assert_eq!(m.apply_update(msg(id, 1, vec![9]), remote()), ApplyOutcome::TakenOver);
    let o = m.get(id).unwrap();
    assert!(!o.local);
    assert_eq!(o.authority, Authority(1));
    assert_eq!(o.data, vec![9]);
}

#[test]
fn lower_authority_is_stale() {
    let id = NetworkId::from_parts(1, Peer::from_u128(1));
    let mut m = remote_with(id, 5, vec![5]);
    assert_eq!(m.apply_update(msg(id, 4, vec![4]), remote()), ApplyOutcome::Stale);
    assert_eq!(m.get(id).unwrap().data, vec![5]);
    assert_eq!(m.apply_update(msg(id, 5, vec![6]), remote()), ApplyOutcome::Mirrored);
    assert_eq!(m.get(id).unwrap().data, vec![6]);
}

#[test]
fn convergence_regardless_of_arrival_order() {
    let id = NetworkId::from_parts(1, Peer::from_u128(1));
    let mut first = remote_with(id, 0, vec![0]);
    first.apply_update(msg(id, 1, vec![1]), remote());
    first.apply_update(msg(id, 2, vec![2]), remote());
    let mut second = remote_with(id, 0, vec![0]);
    second.apply_update(msg(id, 2, vec![2]), remote());
    second.apply_update(msg(id, 1, vec![1]), remote());
    for m in [&first, &second] {
        let o = m.get(id).unwrap();
        assert_eq!(o.data, vec![2]);
        assert_eq!(o.authority, Authority(2));
        assert!(!o.local);
    }
}

#[test]
fn duplicate_update_is_idempotent() {
    let id = NetworkId::from_parts(1, Peer::from_u128(1));
    let mut once = remote_with(id, 0, vec![0]);
    once.apply_update(msg(id, 3, vec![3]), remote());
    let mut twice = remote_with(id, 0, vec![0]);
    twice.apply_update(msg(id, 3, vec![3]), remote());
    assert_eq!(twice.apply_update(msg(id, 3, vec![3]), remote()), ApplyOutcome::Mirrored);
    let (a, b) = (once.get(id).unwrap(), twice.get(id).unwrap());
    assert_eq!(a.authority, b.authority);
    assert_eq!(a.data, b.data);
    assert_eq!(a.local, b.local);
    assert_eq!(a.changed, b.changed);
}

#[test]
fn each_claim_raises_authority_by_one() {
    let id = NetworkId::from_parts(1, Peer::from_u128(1));
    let mut m = remote_with(id, 4, vec![1]);
    assert_eq!(m.claim(id, me()), Ok(()));
    assert_eq!(m.get(id).unwrap().authority, Authority(5));
    assert!(m.get(id).unwrap().local);
    assert_eq!(m.claim(id, me()), Ok(()));
    assert_eq!(m.get(id).unwrap().authority, Authority(6));
    assert!(m.get(id).unwrap().local);
    let other = NetworkId::from_parts(2, Peer::from_u128(1));
    assert_eq!(m.claim(other, me()), Err(ClaimError::NotMapped));
}

#[test]
fn claim_at_largest_authority_fails() {
    let id = NetworkId::from_parts(1, Peer::from_u128(1));
    let mut m = remote_with(id, u32::MAX, vec![1]);
    assert_eq!(m.claim(id, me()), Err(ClaimError::AuthorityExhausted));
    assert!(!m.get(id).unwrap().local);
    let own = NetworkId::from_parts(2, Peer::from_u128(1));
    let mut local = NetworkEntityMapper::new();
    local.spawn_local(own, vec![]);
    local.apply_update(msg(own, u32::MAX - 1, vec![2]), remote());
    assert_eq!(local.claim(own, me()), Ok(()));
    assert!(local.get(own).unwrap().local);
    assert_eq!(local.claim(own, me()), Err(ClaimError::AuthorityExhausted));
    assert_eq!(local.get(own).unwrap().authority, Authority(u32::MAX));
}

#[test]
fn only_changed_local_objects_are_broadcast() {
    let me = Peer::from_u128(1);
    let mine = NetworkId::from_parts(1, me);
    let theirs = NetworkId::from_parts(2, Peer::from_u128(2));
    let mut m = NetworkEntityMapper::new();
    m.spawn_local(mine, vec![1]);
    m.apply_spawn(msg(theirs, 0, vec![2]), remote());
    let out = m.collect_broadcasts();
    assert_eq!(out.len(), 1);
    assert_eq!(out[0].network_id, mine);
    assert!(m.collect_broadcasts().is_empty());
    assert!(m.set_data(theirs, vec![3]));
    assert!(m.collect_broadcasts().is_empty());
    assert!(m.set_data(mine, vec![4]));
    let out = m.collect_broadcasts();
    assert_eq!(out.len(), 1);
    assert_eq!(out[0].data, vec![4]);
}

#[test]
fn despawn_removes_objects_of_disconnected_peers() {
    let (a, b) = (Peer::from_u128(1), Peer::from_u128(2));
    let mut m = NetworkEntityMapper::new();
    m.spawn_local(NetworkId::from_parts(1, a), vec![]);
    m.apply_spawn(msg(NetworkId::from_parts(1, b), 0, vec![]), remote());
    m.apply_spawn(msg(NetworkId::from_parts(2, b), 0, vec![]), remote());
    assert_eq!(m.despawn_owned_by(&vec![b]), 2);
    assert_eq!(m.len(), 1);
    assert!(m.get(NetworkId::from_parts(1, a)).is_some());
    assert_eq!(m.despawn_owned_by(&vec![]), 0);
}

fn deliver(
    from: Peer,
    to: Peer,
    sender_router: &mut MessageRouter,
    receiver_router: &mut MessageRouter,
    receiver: &mut NetworkEntityMapper,
    receiver_type: usize,
    spawn: bool,
) {
    let packets = sender_router.route_outgoing(from, &vec![to]);
    for p in packets {
        assert_eq!(p.peer, to);
        receiver_router.route_incoming(from, &p.bytes).unwrap();
    }
    assert_eq!(receiver.apply_inbound(receiver_router, receiver_type, spawn), 0);
}

#[test]
fn end_to_end_spawn_move_and_handoff() {
    let (a, b) = (Peer::from_u128(0xA), Peer::from_u128(0xB));
    let mut ra = MessageRouter::new();
    let mut rb = MessageRouter::new();
    let ta = ra.register("demo::Position", Reliability::UnreliableOrdered).unwrap();
    let tb = rb.register("demo::Position", Reliability::UnreliableOrdered).unwrap();
    let mut ma = NetworkEntityMapper::new();
    let mut mb = NetworkEntityMapper::new();
    let id = NetworkId::from_parts(1, a);

    assert!(ma.spawn_local(id, pos(0.0, 0.0, 0.0)));
    assert_eq!(ma.broadcast(&mut ra, ta), Ok(1));
    deliver(a, b, &mut ra, &mut rb, &mut mb, tb, true);
    let o = mb.get(id).unwrap();
    assert_eq!(o.data, pos(0.0, 0.0, 0.0));
    assert!(!o.local);
    assert_eq!(o.authority, Authority(0));

    assert!(ma.set_data(id, pos(1.0, 0.0, 0.0)));
    assert_eq!(ma.broadcast(&mut ra, ta), Ok(1));
    assert_eq!(ma.get(id).unwrap().authority, Authority(0));
    deliver(a, b, &mut ra, &mut rb, &mut mb, tb, false);
    assert_eq!(mb.get(id).unwrap().data, pos(1.0, 0.0, 0.0));

    assert_eq!(mb.claim(id, b), Ok(()));
    assert_eq!(mb.get(id).unwrap().authority, Authority(1));
    assert_eq!(mb.broadcast(&mut rb, tb), Ok(1));
    deliver(b, a, &mut rb, &mut ra, &mut ma, ta, false);
    let o = ma.get(id).unwrap();
    assert!(!o.local);
    assert_eq!(o.authority, Authority(1));
    assert_eq!(o.data, pos(1.0, 0.0, 0.0));
    assert_eq!(ma.broadcast(&mut ra, ta), Ok(0));
}

#[test]
fn undecodable_sync_messages_are_skipped() {
    let a = Peer::from_u128(1);
    let id = NetworkId::from_parts(3, a);
    let mut r = MessageRouter::new();
    let t = r.register("demo::Position", Reliability::Unreliable).unwrap();
    r.send(t, vec![1, 2, 3], SendType::All).unwrap();
    r.send(t, msg(id, 2, vec![8]).encode(), SendType::All).unwrap();
    r.route_outgoing(a, &vec![]);
    let mut m = NetworkEntityMapper::new();
    assert_eq!(m.apply_inbound(&mut r, t, true), 1);
    assert_eq!(m.len(), 1);
    let o = m.get(id).unwrap();
    assert_eq!(o.authority, Authority(2));
    assert_eq!(o.data, vec![8]);
    assert!(r.drain_incoming(t).is_empty());
}

#[test]
fn repeated_claim_settles_a_tie() {
    let a = Peer::from_u128(1);
    let id = NetworkId::from_parts(9, a);
    let mut at_a = NetworkEntityMapper::new();
    at_a.spawn_local(id, vec![1]);
    let mut at_b = remote_with(id, 0, vec![1]);
    assert_eq!(at_a.claim(id, a), Ok(()));
    assert_eq!(at_b.claim(id, Peer::from_u128(2)), Ok(()));
    assert_eq!(at_a.get(id).unwrap().authority, at_b.get(id).unwrap().authority);
    assert!(at_b.set_data(id, vec![2]));
    assert_eq!(at_b.claim(id, Peer::from_u128(2)), Ok(()));
    let update = at_b.collect_broadcasts().remove(0);
    assert_eq!(update.authority, Authority(2));
    assert_eq!(at_a.apply_update(update, Peer::from_u128(2)), ApplyOutcome::TakenOver);
    let o = at_a.get(id).unwrap();
    assert!(!o.local);
    assert_eq!(o.data, vec![2]);
}

#[test]
fn claimed_object_survives_its_spawner_leaving() {
    let (a, b) = (Peer::from_u128(1), Peer::from_u128(2));
    let id = NetworkId::from_parts(4, a);
    let mut at_b = NetworkEntityMapper::new();
    at_b.apply_spawn(msg(id, 0, vec![1]), a);
    assert_eq!(at_b.claim(id, b), Ok(()));
    assert_eq!(at_b.get(id).unwrap().owner, b);
    assert_eq!(at_b.despawn_owned_by(&vec![a]), 0);
    assert_eq!(at_b.len(), 1);
    let other = NetworkId::from_parts(5, b);
    let mut at_c = NetworkEntityMapper::new();
    at_c.apply_spawn(msg(other, 0, vec![]), b);
    assert_eq!(at_c.apply_update(msg(other, 3, vec![2]), a), ApplyOutcome::TakenOver);
    assert_eq!(at_c.get(other).unwrap().owner, a);
    assert_eq!(at_c.despawn_owned_by(&vec![b]), 0);
    assert_eq!(at_c.despawn_owned_by(&vec![a]), 1);
}
