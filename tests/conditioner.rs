use evnet::conditioner::{LinkConditioner, LinkConditionerConfig, LOSS_SCALE};
use evnet::Peer;

fn config(latency: u32, jitter: u32, loss: u32) -> LinkConditionerConfig {
    LinkConditionerConfig { incoming_latency: latency, incoming_jitter: jitter, incoming_loss: loss }
}

#[test]
fn lossless_packets_come_out_once_after_latency() {
    let mut c = LinkConditioner::new(config(50, 0, 0));
    let p = Peer::from_u128(7);
    c.condition_packet_at(vec![1], p, 100, 1, 0);
    c.condition_packet_at(vec![2], p, 120, LOSS_SCALE - 1, 0);
    assert_eq!(c.pending(), 2);
    assert_eq!(c.pop_packet_at(149), None);
    assert_eq!(c.pop_packet_at(150), Some((vec![1], p)));
    assert_eq!(c.pop_packet_at(150), None);
    assert_eq!(c.pop_packet_at(170), Some((vec![2], p)));
    assert_eq!(c.pop_packet_at(10_000), None);
    assert_eq!(c.pending(), 0);
}

#[test]
fn full_loss_drops_everything() {
    let mut c = LinkConditioner::new(config(0, 0, LOSS_SCALE));
    for i in 0..20u8 {
        c.condition_packet(vec![i], Peer::from_u128(1));
    }
    assert_eq!(c.pending(), 0);
    assert_eq!(c.pop_packet_at(u64::MAX), None);
}

#[test]
fn loss_draw_at_most_loss_drops() {
    let mut c = LinkConditioner::new(config(0, 0, 10));
    c.condition_packet_at(vec![1], Peer::from_u128(1), 0, 10, 0);
    assert_eq!(c.pending(), 0);
    c.condition_packet_at(vec![2], Peer::from_u128(1), 0, 11, 0);
    assert_eq!(c.pending(), 1);
}

#[test]
fn jitter_shifts_release_and_clamps_at_now() {
    let mut c = LinkConditioner::new(config(10, 30, 0));
    let p = Peer::from_u128(3);
    c.condition_packet_at(vec![1], p, 100, 1, 25);
    c.condition_packet_at(vec![2], p, 100, 1, -30);
    assert_eq!(c.pop_packet_at(99), None);
    assert_eq!(c.pop_packet_at(100), Some((vec![2], p)));
    assert_eq!(c.pop_packet_at(134), None);
    assert_eq!(c.pop_packet_at(135), Some((vec![1], p)));
}

#[test]
fn release_time_saturates() {
    let mut c = LinkConditioner::new(config(10, 0, 0));
    c.condition_packet_at(vec![9], Peer::from_u128(1), u64::MAX - 3, 1, 0);
    assert_eq!(c.pop_packet_at(u64::MAX - 1), None);
    assert_eq!(c.pop_packet_at(u64::MAX), Some((vec![9], Peer::from_u128(1))));
}

#[test]
fn zero_latency_packet_is_ready_with_real_clock() {
    let mut c = LinkConditioner::new(config(0, 0, 0));
    let mut kept = 0;
    for i in 0..50u8 {
        c.condition_packet(vec![i], Peer::from_u128(1));
        while c.pop_packet().is_some() {
            kept += 1;
        }
    }
    assert_eq!(kept, 50);
    assert_eq!(c.config().incoming_loss, 0);
}

#[test]
fn jitter_draws_spread_release_times() {
    let mut c = LinkConditioner::new(config(1000, 1000, 0));
    for i in 0..20u8 {
        c.condition_packet(vec![i], Peer::from_u128(1));
    }
    let mut ready = 0;
    while c.pop_packet().is_some() {
        ready += 1;
    }
    assert!(ready <= 5);
    assert!(c.pending() >= 14);
}
