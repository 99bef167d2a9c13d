//! Simulated link impairment: latency, jitter and loss on incoming packets.
use crate::ready_buffer::{
    after_pop_item, as_pairs, pending_at, pop_item_result, ready_at, ItemWithReadyKey, ReadyBuffer,
};
use crate::Peer;
use std::time::{Duration, Instant};
use vstd::prelude::*;

verus! {

/// The loss draw is taken in `[1, LOSS_SCALE]`: a loss of 0 drops no
/// packet, and a loss of `LOSS_SCALE` drops every packet.
pub const LOSS_SCALE: u32 = 1000000;

#[verifier::external_type_specification]
#[verifier::external_body]
pub struct ExInstant(Instant);

/// Relies on `std::time::Instant::now`: a reading of the monotonic clock.
#[verifier::external_body]
fn clock_origin() -> Instant {
    Instant::now()
}

/// Relies on `std::time::Instant::elapsed`: the time since `origin`, which
/// depends on the clock alone.
#[verifier::external_body]
fn elapsed_since(origin: &Instant) -> Duration {
    origin.elapsed()
}

/// Relies on `std::time::Duration::as_millis`: the whole milliseconds of
/// `d`, as a `u64`.
#[verifier::external_body]
fn whole_millis(d: &Duration) -> u64 {
    d.as_millis() as u64
}

/// Milliseconds on the clock that starts at `origin`.
fn millis_since(origin: &Instant) -> u64 {
    let elapsed = elapsed_since(origin);
    whole_millis(&elapsed)
}

/// Relies on `random_number::random_exclusively`: a uniform draw in
/// `[min, max_exclusive)`; it panics on an empty range.
#[verifier::external_body]
fn draw_below(min: u32, max_exclusive: u32) -> (r: u32)
    requires
        min < max_exclusive,
    ensures
        min <= r < max_exclusive,
{
    random_number::random_exclusively(min, max_exclusive)
}

/// Relies on `random_number::random_inclusively`: a uniform draw in
/// `[min, max_inclusive]`; it panics where `min > max_inclusive`.
#[verifier::external_body]
fn draw_between(min: i64, max_inclusive: i64) -> (r: i64)
    requires
        min <= max_inclusive,
    ensures
        min <= r <= max_inclusive,
{
    random_number::random_inclusively(min, max_inclusive)
}

/// How a [`LinkConditioner`] impairs incoming packets.
#[derive(Copy, Clone, Debug)]
pub struct LinkConditionerConfig {
    /// Delay of each incoming packet, in milliseconds (half the round trip).
    pub incoming_latency: u32,
    /// Largest random change of that delay, either way, in milliseconds.
    pub incoming_jitter: u32,
    /// Chance that an incoming packet is dropped, in parts of `LOSS_SCALE`.
    pub incoming_loss: u32,
}

/// A packet is dropped where the loss draw is at most the configured loss.
pub open spec fn is_dropped(config: LinkConditionerConfig, loss_draw: u32) -> bool {
    loss_draw <= config.incoming_loss
}

/// When a packet received at `now` is released, with the latency changed by
/// `offset`: a delay that is not positive releases it at once, and the time
/// saturates at the largest `u64`.
pub open spec fn release_time(now: u64, latency: u32, offset: i64) -> u64 {
    let delay = latency as int + offset as int;
    if delay <= 0 {
        now
    } else if now + delay <= u64::MAX {
        (now + delay) as u64
    } else {
        u64::MAX
    }
}

/// With no loss a packet received at `now` is kept, whatever the loss draw,
/// and with no jitter it is released `latency` milliseconds later
/// (saturating); with a loss of `LOSS_SCALE` or more, every packet is
/// dropped.
pub proof fn lemma_conditioner_delivery(config: LinkConditionerConfig, now: u64, loss_draw: u32)
    requires
        1 <= loss_draw <= LOSS_SCALE,
    ensures
        config.incoming_loss == 0 ==> !is_dropped(config, loss_draw),
        config.incoming_jitter == 0 && now + config.incoming_latency <= u64::MAX ==> release_time(
            now,
            config.incoming_latency,
            0,
        ) == now + config.incoming_latency,
        config.incoming_loss >= LOSS_SCALE ==> is_dropped(
            config,
            loss_draw,
        ),
{
}

/// A held packet as plain values: release time, sender, bytes.
pub open spec fn held_view(x: ItemWithReadyKey<(Vec<u8>, Peer)>) -> (u64, Peer, Seq<u8>) {
    (x.key, x.item.1, x.item.0@)
}

/// Holds of a held packet that is released at `now`.
pub open spec fn held_ready(now: u64) -> spec_fn((u64, Peer, Seq<u8>)) -> bool {
    |h: (u64, Peer, Seq<u8>)| h.0 <= now
}

/// Holds of a held packet that is not yet released at `now`.
pub open spec fn held_pending(now: u64) -> spec_fn((u64, Peer, Seq<u8>)) -> bool {
    |h: (u64, Peer, Seq<u8>)| h.0 > now
}

/// The held packets `held` after the packet `bytes` from `peer` is
/// conditioned at `now` with the draws given: unchanged where it is
/// dropped, else with it inserted after every packet released no later.
pub open spec fn after_condition(
    held: Seq<(u64, Peer, Seq<u8>)>,
    config: LinkConditionerConfig,
    now: u64,
    loss_draw: u32,
    jitter_draw: i64,
    peer: Peer,
    bytes: Seq<u8>,
) -> Seq<(u64, Peer, Seq<u8>)> {
    if is_dropped(config, loss_draw) {
        held
    } else {
        let k = release_time(now, config.incoming_latency, jitter_draw);
        held.insert(held.filter(held_ready(k)).len() as int, (k, peer, bytes))
    }
}

/// Filtering by release time commutes with taking the plain values.
proof fn lemma_held_filter(s: Seq<ItemWithReadyKey<(Vec<u8>, Peer)>>, now: u64)
    ensures
        s.filter(ready_at(now)).map_values(|x: ItemWithReadyKey<(Vec<u8>, Peer)>| held_view(x))
            == s.map_values(|x: ItemWithReadyKey<(Vec<u8>, Peer)>| held_view(x)).filter(
            held_ready(now),
        ),
        s.filter(pending_at(now)).map_values(|x: ItemWithReadyKey<(Vec<u8>, Peer)>| held_view(x))
            == s.map_values(|x: ItemWithReadyKey<(Vec<u8>, Peer)>| held_view(x)).filter(
            held_pending(now),
        ),
    decreases s.len(),
{
    reveal(Seq::filter);
    let f = |x: ItemWithReadyKey<(Vec<u8>, Peer)>| held_view(x);
    if s.len() > 0 {
        lemma_held_filter(s.drop_last(), now);
        assert(s.map_values(f).drop_last() =~= s.drop_last().map_values(f));
        assert(s.map_values(f).last() == f(s.last()));
        let a = s.drop_last().filter(ready_at(now));
        let b = s.drop_last().filter(pending_at(now));
        assert(a.push(s.last()).map_values(f) =~= a.map_values(f).push(f(s.last())));
        assert(b.push(s.last()).map_values(f) =~= b.map_values(f).push(f(s.last())));
    } else {
        assert(s.map_values(f) =~= Seq::empty());
        assert(s.filter(ready_at(now)).map_values(f) =~= Seq::empty());
        assert(s.filter(pending_at(now)).map_values(f) =~= Seq::empty());
    }
}

/// Delays, jitters and drops packets before they reach routing.
pub struct LinkConditioner {
    config: LinkConditionerConfig,
    time_queue: ReadyBuffer<(Vec<u8>, Peer)>,
    origin: Instant,
}

impl LinkConditioner {
    pub open spec fn wf(&self) -> bool {
        self.queue().wf()
    }

    /// The packets held back, by ascending release time.
    pub closed spec fn queue(&self) -> ReadyBuffer<(Vec<u8>, Peer)> {
        self.time_queue
    }

    pub closed spec fn config_spec(&self) -> LinkConditionerConfig {
        self.config
    }

    /// The packets held back as plain values, by ascending release time.
    pub open spec fn held(&self) -> Seq<(u64, Peer, Seq<u8>)> {
        self.queue()@.map_values(|x: ItemWithReadyKey<(Vec<u8>, Peer)>| held_view(x))
    }

    /// A conditioner that holds no packet; its clock starts now.
    pub fn new(config: LinkConditionerConfig) -> (r: Self)
        ensures
            r.wf(),
            r.config_spec() == config,
            r.queue()@ == Seq::<ItemWithReadyKey<(Vec<u8>, Peer)>>::empty(),
    {
        LinkConditioner { config, time_queue: ReadyBuffer::new(), origin: clock_origin() }
    }

    /// The configuration this conditioner was made with.
    pub fn config(&self) -> (r: LinkConditionerConfig)
        ensures
            r == self.config_spec(),
    {
        self.config
    }

    /// The number of packets held back.
    pub fn pending(&self) -> (r: usize)
        requires
            self.wf(),
        ensures
            r == self.queue()@.len(),
    {
        self.time_queue.len()
    }

    /// Conditions `packet` from `peer`, received at `now` (milliseconds on
    /// the conditioner's clock), with the random draws given: it is dropped
    /// where `loss_draw` is at most the configured loss, and otherwise held
    /// back until `release_time(now, latency, jitter_draw)`.
    pub fn condition_packet_at(
        &mut self,
        packet: Vec<u8>,
        peer: Peer,
        now: u64,
        loss_draw: u32,
        jitter_draw: i64,
    )
        requires
            old(self).wf(),
            1 <= loss_draw <= LOSS_SCALE,
        ensures
            final(self).wf(),
            final(self).config_spec() == old(self).config_spec(),
            final(self).held() == after_condition(
                old(self).held(),
                old(self).config_spec(),
                now,
                loss_draw,
                jitter_draw,
                peer,
                packet@,
            ),
            old(self).config_spec().incoming_loss == 0 ==> exists|i: int|
                0 <= i <= old(self).queue()@.len() && final(self).queue()@ == old(
                    self,
                ).queue()@.insert(
                    i,
                    (ItemWithReadyKey {
                        key: release_time(now, old(self).config_spec().incoming_latency, jitter_draw),
                        item: (packet, peer),
                    }),
                ),
            is_dropped(old(self).config_spec(), loss_draw) ==> final(self).queue()@ == old(
                self,
            ).queue()@,
            !is_dropped(old(self).config_spec(), loss_draw) ==> exists|i: int|
                0 <= i <= old(self).queue()@.len() && final(self).queue()@ == old(
                    self,
                ).queue()@.insert(
                    i,
                    (ItemWithReadyKey {
                        key: release_time(now, old(self).config_spec().incoming_latency, jitter_draw),
                        item: (packet, peer),
                    }),
                ),
    {
        if loss_draw <= self.config.incoming_loss {
            return;
        }
        let delay: i128 = self.config.incoming_latency as i128 + jitter_draw as i128;
        let room: i128 = (u64::MAX - now) as i128;
        let release: u64 = if delay <= 0 {
            now
        } else if delay >= room {
            u64::MAX
        } else {
            now + delay as u64
        };
        let ghost x = ItemWithReadyKey { key: release, item: (packet, peer) };
        let ghost bytes = packet@;
        let ghost old_q = self.time_queue@;
        self.time_queue.push(release, (packet, peer));
        proof {
            let f = |x: ItemWithReadyKey<(Vec<u8>, Peer)>| held_view(x);
            let n = old_q.filter(ready_at(release)).len() as int;
            lemma_held_filter(old_q, release);
            assert(old_q.filter(ready_at(release)).map_values(f).len() == n);
            assert(old_q.insert(n, x).map_values(f) =~= old_q.map_values(f).insert(
                n,
                (release, peer, bytes),
            ));
        }
    }

    /// Conditions `packet` from `peer`, received now, with fresh random
    /// draws: either it is dropped, or it is held back under some release
    /// time. Where the configured loss is `LOSS_SCALE` or more it is always
    /// dropped.
    pub fn condition_packet(&mut self, packet: Vec<u8>, peer: Peer)
        requires
            old(self).wf(),
        ensures
            final(self).wf(),
            final(self).config_spec() == old(self).config_spec(),
            final(self).queue()@ == old(self).queue()@ || exists|i: int, k: u64|
                0 <= i <= old(self).queue()@.len() && final(self).queue()@ == old(
                    self,
                ).queue()@.insert(i, (ItemWithReadyKey { key: k, item: (packet, peer) })),
            old(self).config_spec().incoming_loss >= LOSS_SCALE ==> final(self).queue()@ == old(
                self,
            ).queue()@,
            old(self).config_spec().incoming_loss == 0 ==> exists|i: int, k: u64|
                0 <= i <= old(self).queue()@.len() && final(self).queue()@ == old(
                    self,
                ).queue()@.insert(i, (ItemWithReadyKey { key: k, item: (packet, peer) })),
    {
        let (loss_draw, jitter_draw) = self.fresh_draws();
        let now = self.now();
        self.condition_packet_at(packet, peer, now, loss_draw, jitter_draw);
    }

    /// Removes and returns every packet released at `now`, by ascending
    /// release time, each with its release time.
    pub fn release_at(&mut self, now: u64) -> (r: Vec<(u64, (Vec<u8>, Peer))>)
        requires
            old(self).wf(),
        ensures
            final(self).wf(),
            final(self).config_spec() == old(self).config_spec(),
            r@.map_values(|x: (u64, (Vec<u8>, Peer))| (x.0, x.1.1, x.1.0@)) == old(self).held().filter(
                held_ready(now),
            ),
            final(self).held() == old(self).held().filter(held_pending(now)),
    {
        let ghost q = self.time_queue@;
        let r = self.time_queue.drain_until(&now);
        proof {
            lemma_held_filter(q, now);
            let g = |x: (u64, (Vec<u8>, Peer))| (x.0, x.1.1, x.1.0@);
            let f = |x: ItemWithReadyKey<(Vec<u8>, Peer)>| held_view(x);
            assert(r@.map_values(g) =~= q.filter(ready_at(now)).map_values(f));
        }
        r
    }

    /// The conditioner's clock, in milliseconds.
    pub(crate) fn now(&self) -> u64 {
        millis_since(&self.origin)
    }

    /// Fresh random draws for conditioning one packet: the loss draw in
    /// `[1, LOSS_SCALE]` and the jitter draw within the configured jitter.
    pub(crate) fn fresh_draws(&self) -> (r: (u32, i64))
        ensures
            1 <= r.0 <= LOSS_SCALE,
            -(self.config_spec().incoming_jitter as int) <= r.1 <= self.config_spec().incoming_jitter,
    {
        let loss_draw = draw_below(1, LOSS_SCALE + 1);
        let jitter = self.config.incoming_jitter as i64;
        let jitter_draw = if jitter > 0 {
            draw_between(-jitter, jitter)
        } else {
            0
        };
        (loss_draw, jitter_draw)
    }

    /// Removes and returns the packet with the earliest release time, where
    /// that time is at most `now`.
    pub fn pop_packet_at(&mut self, now: u64) -> (r: Option<(Vec<u8>, Peer)>)
        requires
            old(self).wf(),
        ensures
            final(self).wf(),
            final(self).config_spec() == old(self).config_spec(),
            final(self).queue()@ == after_pop_item(old(self).queue()@, now),
            r == match pop_item_result(old(self).queue()@, now) {
                Some(p) => Some(p.1),
                None => None,
            },
    {
        match self.time_queue.pop_item(&now) {
            Some((_, packet)) => Some(packet),
            None => None,
        }
    }

    /// Removes and returns the packet with the earliest release time, where
    /// that time has passed on the conditioner's clock.
    pub fn pop_packet(&mut self) -> (r: Option<(Vec<u8>, Peer)>)
        requires
            old(self).wf(),
        ensures
            final(self).wf(),
            final(self).config_spec() == old(self).config_spec(),
            r is None ==> final(self).queue()@ == old(self).queue()@,
            r is Some ==> old(self).queue()@.len() > 0 && r == Some(old(self).queue()@[0].item)
                && final(self).queue()@ == old(self).queue()@.drop_first(),
            old(self).queue()@.len() > 0 && old(self).queue()@[0].key == 0 ==> r is Some,
    {
        let now = millis_since(&self.origin);
        self.pop_packet_at(now)
    }
}

} // verus!
