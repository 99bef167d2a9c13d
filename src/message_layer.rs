//! Typed message routing over the three reliability channels.
//!
//! Each message type is registered once, under its name, with the
//! reliability class that all of its messages travel with. A packet on the
//! wire is an envelope: the 32-bit fingerprint of the type's name, then the
//! length and bytes of the encoded message.
use crate::wire::{
    copy_range, push_all, push_u32_le, push_u64_le, read_u32_le, read_u64_le, u32_le, u32_of_le,
    u64_le, u64_of_le,
};
use crate::conditioner::{after_condition, held_pending, held_ready, LinkConditioner, LOSS_SCALE};
use crate::{Peer, Reliability};
use std::collections::hash_map::DefaultHasher;
use std::hash::Hasher;
use vstd::prelude::*;
use vstd::std_specs::hash::DefaultHasherAdditionalSpecFns;
use vstd::string::StringSliceAdditionalSpecFns;
use vstd::utf8::encode_utf8;

verus! {

/// Bytes before the content of an envelope: the fingerprint and the length.
pub const ENVELOPE_HEADER_LEN: usize = 12;

/// The fingerprint of the message type named `name`: the default hasher's
/// digest of the name as a `str` is hashed (its UTF-8 bytes, then `0xff`),
/// cut to 32 bits.
pub open spec fn fingerprint_of(name: Seq<char>) -> u32 {
    DefaultHasher::spec_finish(seq![encode_utf8(name), seq![0xffu8]]) as u32
}

/// The packet that carries `content` for the type with `fingerprint`.
pub open spec fn envelope_bytes(fingerprint: u32, content: Seq<u8>) -> Seq<u8> {
    u32_le(fingerprint) + u64_le(content.len() as u64) + content
}

/// The fingerprint and content that packet `b` carries, or `None` where it
/// is too short or its length field disagrees with its size.
pub open spec fn parse_envelope(b: Seq<u8>) -> Option<(u32, Seq<u8>)> {
    if b.len() >= 12 && u64_of_le(b.subrange(4, 12)) == b.len() - 12 {
        Some((u32_of_le(b.subrange(0, 4)), b.subrange(12, b.len() as int)))
    } else {
        None
    }
}

/// A packet that cannot be decoded.
#[derive(Copy, Clone, PartialEq, Eq, Structural, Debug)]
pub enum WireError {
    Malformed,
}

/// A message in transit: the fingerprint of its type and its encoded form.
pub struct MessageWrapper {
    pub type_id_hash: u32,
    pub content: Vec<u8>,
}

impl MessageWrapper {
    /// The fingerprint of the message type named `name`.
    pub fn hash(name: &str) -> (r: u32)
        ensures
            r == fingerprint_of(name@),
    {
        let mut hasher = DefaultHasher::new();
        hasher.write(name.as_bytes());
        let mut terminator: Vec<u8> = Vec::new();
        terminator.push(0xffu8);
        hasher.write(terminator.as_slice());
        assert(hasher@ =~= seq![name.spec_bytes(), seq![0xffu8]]);
        hasher.finish() as u32
    }

    /// The packet that carries this message.
    pub fn encode(&self) -> (r: Vec<u8>)
        ensures
            r@ == envelope_bytes(self.type_id_hash, self.content@),
    {
        let mut out: Vec<u8> = Vec::new();
        push_u32_le(&mut out, self.type_id_hash);
        push_u64_le(&mut out, self.content.len() as u64);
        push_all(&mut out, &self.content);
        assert(out@ =~= envelope_bytes(self.type_id_hash, self.content@));
        out
    }

    /// The packet that carries `content`, an encoded message of the type
    /// named `name`.
    pub fn serialize(name: &str, content: &Vec<u8>) -> (r: Vec<u8>)
        ensures
            r@ == envelope_bytes(fingerprint_of(name@), content@),
    {
        let w = MessageWrapper { type_id_hash: MessageWrapper::hash(name), content: content.clone() };
        let ghost c = content@;
        assert(w.content@ == c);
        w.encode()
    }

    /// The message that packet `bytes` carries.
    pub fn decode(bytes: &Vec<u8>) -> (r: Result<MessageWrapper, WireError>)
        ensures
            parse_envelope(bytes@) is None ==> r == Err::<MessageWrapper, WireError>(
                WireError::Malformed,
            ),
            parse_envelope(bytes@) matches Some(p) ==> r matches Ok(w) && w.type_id_hash == p.0
                && w.content@ == p.1,
    {
        let len = bytes.len();
        if len < ENVELOPE_HEADER_LEN {
            return Err(WireError::Malformed);
        }
        let declared = read_u64_le(bytes, 4);
        if declared != (len - ENVELOPE_HEADER_LEN) as u64 {
            return Err(WireError::Malformed);
        }
        let type_id_hash = read_u32_le(bytes, 0);
        let content = copy_range(bytes, ENVELOPE_HEADER_LEN, len);
        Ok(MessageWrapper { type_id_hash, content })
    }
}

/// Decoding an encoded envelope gives back its fingerprint and content, and a
/// packet that decodes is exactly the envelope of what it decodes to.
pub proof fn lemma_envelope_round_trip(fingerprint: u32, content: Seq<u8>, b: Seq<u8>)
    requires
        content.len() <= u64::MAX,
    ensures
        parse_envelope(envelope_bytes(fingerprint, content)) == Some((fingerprint, content)),
        parse_envelope(b) matches Some(p) ==> envelope_bytes(p.0, p.1) == b,
{
    let e = envelope_bytes(fingerprint, content);
    crate::wire::lemma_u32_round_trip(fingerprint);
    crate::wire::lemma_u64_round_trip(content.len() as u64);
    assert(e.subrange(0, 4) =~= u32_le(fingerprint));
    assert(e.subrange(4, 12) =~= u64_le(content.len() as u64));
    assert(e.subrange(12, e.len() as int) =~= content);
    if b.len() >= 12 && u64_of_le(b.subrange(4, 12)) == b.len() - 12 {
        crate::wire::lemma_u32_bytes_round_trip(b.subrange(0, 4));
        crate::wire::lemma_u64_bytes_round_trip(b.subrange(4, 12));
        assert(envelope_bytes(u32_of_le(b.subrange(0, 4)), b.subrange(12, b.len() as int)) =~= b);
    }
}


/// Where a message goes besides its sender.
pub enum SendType {
    /// Every connected peer, and the sender itself once, without the transport.
    All,
    /// Every connected peer, and not the sender.
    AllButSelf,
    /// Each peer of the list, once per mention.
    Many(Vec<Peer>),
    /// The one peer given.
    One(Peer),
}

/// The peers that the transport is asked to send to, with `peers` connected.
pub open spec fn recipients(to: SendType, peers: Seq<Peer>) -> Seq<Peer> {
    match to {
        SendType::All => peers,
        SendType::AllButSelf => peers,
        SendType::Many(list) => list@,
        SendType::One(p) => seq![p],
    }
}

/// The peers at which a message sent by `me` is decoded: the transport's
/// recipients, and `me` itself for `All`.
pub open spec fn deliveries(to: SendType, me: Peer, peers: Seq<Peer>) -> Seq<Peer> {
    if to is All {
        recipients(to, peers).push(me)
    } else {
        recipients(to, peers)
    }
}

/// How often a message is decoded at each peer, by where it was sent:
/// `One(q)` once at `q` and nowhere else; `All` once at every connected peer
/// and once at the sender; `AllButSelf` once at every connected peer and not
/// at the sender. `peers` are the connected peers, each once, without the
/// sender.
pub proof fn lemma_send_type_deliveries(to: SendType, me: Peer, peers: Seq<Peer>, p: Peer)
    requires
        peers.no_duplicates(),
        !peers.contains(me),
    ensures
        to matches SendType::One(q) ==> deliveries(to, me, peers).to_multiset().count(p) == (if p
            == q {
            1nat
        } else {
            0nat
        }),
        to is All ==> deliveries(to, me, peers).to_multiset().count(p) == (if p == me
            || peers.contains(p) {
            1nat
        } else {
            0nat
        }),
        to is AllButSelf ==> deliveries(to, me, peers).to_multiset().count(p) == (if peers.contains(
            p,
        ) {
            1nat
        } else {
            0nat
        }),
{
    broadcast use vstd::seq_lib::group_to_multiset_ensures;

    let d = deliveries(to, me, peers);
    match to {
        SendType::One(q) => {
            assert(d =~= seq![q]);
            assert(d.no_duplicates());
            d.lemma_multiset_has_no_duplicates();
            if p == q {
                assert(d[0] == p);
            }
        },
        SendType::All => {
            assert(d =~= peers.push(me));
            assert(d.no_duplicates()) by {
                assert forall|i: int, j: int|
                    0 <= i < d.len() && 0 <= j < d.len() && i != j implies d[i] != d[j] by {
                    if i == peers.len() {
                        assert(peers[j] == d[j]);
                    } else if j == peers.len() {
                        assert(peers[i] == d[i]);
                    }
                }
            }
            d.lemma_multiset_has_no_duplicates();
            if p == me {
                assert(d[peers.len() as int] == p);
            } else if peers.contains(p) {
                let i = choose|i: int| 0 <= i < peers.len() && peers[i] == p;
                assert(d[i] == p);
            } else {
                assert(!d.contains(p));
            }
        },
        SendType::AllButSelf => {
            d.lemma_multiset_has_no_duplicates();
        },
        SendType::Many(_) => {},
    }
}

/// A packet that a router sends for a registered type is routed, at a peer
/// where the same name is registered, to that type, with the sender and the
/// content it was sent with.
pub proof fn lemma_sent_packet_routes_to_type(
    regs: Seq<Registration>,
    i: int,
    sender: Peer,
    content: Seq<u8>,
)
    requires
        0 <= i < regs.len(),
        i <= usize::MAX,
        content.len() <= u64::MAX,
        forall|a: int, b: int|
            0 <= a < b < regs.len() ==> (#[trigger] regs[a]).fingerprint != (
            #[trigger] regs[b]).fingerprint,
    ensures
        route_one(regs, sender, envelope_bytes(regs[i].fingerprint, content)) == Ok::<
            (usize, Peer, Seq<u8>),
            RoutingError,
        >((i as usize, sender, content)),
{
    lemma_envelope_round_trip(regs[i].fingerprint, content, Seq::empty());
    let fp = regs[i].fingerprint;
    assert(has_fingerprint(regs, fp));
    let c = choose|c: int| 0 <= c < regs.len() && (#[trigger] regs[c]).fingerprint == fp;
    if c < i {
        assert(regs[c].fingerprint != regs[i].fingerprint);
    } else if c > i {
        assert(regs[i].fingerprint != regs[c].fingerprint);
    }
}

/// A registered message type.
pub struct Registration {
    pub name: String,
    pub fingerprint: u32,
    pub reliability: Reliability,
}

/// A message received for a registered type, not yet taken by its consumer.
pub struct Delivery {
    pub type_index: usize,
    pub sender: Peer,
    pub content: Vec<u8>,
}

/// A message waiting to be sent.
pub struct QueuedMessage {
    pub type_index: usize,
    pub content: Vec<u8>,
    pub to: SendType,
}

/// A packet for the transport: the channel, the peer and the bytes.
pub struct OutgoingPacket {
    pub channel: Reliability,
    pub peer: Peer,
    pub bytes: Vec<u8>,
}

/// A delivery as plain values: type index, sender, content.
pub open spec fn delivery_view(d: Delivery) -> (usize, Peer, Seq<u8>) {
    (d.type_index, d.sender, d.content@)
}

/// A packet as plain values: channel, peer, bytes.
pub open spec fn packet_view(p: OutgoingPacket) -> (Reliability, Peer, Seq<u8>) {
    (p.channel, p.peer, p.bytes@)
}

/// A received packet as plain values: sender, bytes.
pub open spec fn received_view(r: (Peer, Vec<u8>)) -> (Peer, Seq<u8>) {
    (r.0, r.1@)
}

/// Why registering a message type failed.
#[derive(Copy, Clone, PartialEq, Eq, Structural, Debug)]
pub enum RegistrationError {
    /// A type of the same name is registered already.
    AlreadyRegistered,
    /// A type of another name has the same fingerprint.
    FingerprintCollision,
}

/// Why a message could not be queued.
#[derive(Copy, Clone, PartialEq, Eq, Structural, Debug)]
pub enum SendError {
    /// No type is registered under the index given.
    NotRegistered,
}

/// Why a received packet was not delivered.
#[derive(Copy, Clone, PartialEq, Eq, Structural, Debug)]
pub enum RoutingError {
    /// The packet is not an envelope.
    Malformed,
    /// No registered type has the packet's fingerprint.
    UnknownFingerprint(u32),
}

/// Some registered type has this fingerprint.
pub open spec fn has_fingerprint(regs: Seq<Registration>, fp: u32) -> bool {
    exists|i: int| 0 <= i < regs.len() && (#[trigger] regs[i]).fingerprint == fp
}

/// Where a packet from `sender` with bytes `b` goes: the delivery it makes,
/// or why it makes none.
pub open spec fn route_one(regs: Seq<Registration>, sender: Peer, b: Seq<u8>) -> Result<
    (usize, Peer, Seq<u8>),
    RoutingError,
> {
    match parse_envelope(b) {
        None => Err(RoutingError::Malformed),
        Some(p) => if has_fingerprint(regs, p.0) {
            let i = choose|i: int| 0 <= i < regs.len() && (#[trigger] regs[i]).fingerprint == p.0;
            Ok((i as usize, sender, p.1))
        } else {
            Err(RoutingError::UnknownFingerprint(p.0))
        },
    }
}

/// The deliveries and errors that routing `received` makes, in order.
pub open spec fn route_all(regs: Seq<Registration>, received: Seq<(Peer, Seq<u8>)>) -> (
    Seq<(usize, Peer, Seq<u8>)>,
    Seq<RoutingError>,
)
    decreases received.len(),
{
    if received.len() == 0 {
        (Seq::empty(), Seq::empty())
    } else {
        let prev = route_all(regs, received.drop_last());
        match route_one(regs, received.last().0, received.last().1) {
            Ok(d) => (prev.0.push(d), prev.1),
            Err(e) => (prev.0, prev.1.push(e)),
        }
    }
}

/// Routing two lists one after the other makes the deliveries and errors of
/// both, in order.
proof fn lemma_route_all_append(
    regs: Seq<Registration>,
    a: Seq<(Peer, Seq<u8>)>,
    b: Seq<(Peer, Seq<u8>)>,
)
    ensures
        route_all(regs, a + b).0 == route_all(regs, a).0 + route_all(regs, b).0,
        route_all(regs, a + b).1 == route_all(regs, a).1 + route_all(regs, b).1,
    decreases b.len(),
{
    let ra = route_all(regs, a);
    if b.len() == 0 {
        assert(a + b =~= a);
        assert(ra.0 + Seq::<(usize, Peer, Seq<u8>)>::empty() =~= ra.0);
        assert(ra.1 + Seq::<RoutingError>::empty() =~= ra.1);
    } else {
        lemma_route_all_append(regs, a, b.drop_last());
        assert((a + b).drop_last() =~= a + b.drop_last());
        assert((a + b).last() == b.last());
        let rb = route_all(regs, b.drop_last());
        match route_one(regs, b.last().0, b.last().1) {
            Ok(d) => {
                assert((ra.0 + rb.0).push(d) =~= ra.0 + rb.0.push(d));
            },
            Err(e) => {
                assert((ra.1 + rb.1).push(e) =~= ra.1 + rb.1.push(e));
            },
        }
    }
}

/// The deliveries of type `t` in `inbox`, in order.
pub open spec fn of_type_in(inbox: Seq<(usize, Peer, Seq<u8>)>, t: usize) -> Seq<
    (usize, Peer, Seq<u8>),
> {
    inbox.filter(of_type(t))
}

/// Filtering by type distributes over concatenation.
proof fn lemma_of_type_in_add(a: Seq<(usize, Peer, Seq<u8>)>, b: Seq<(usize, Peer, Seq<u8>)>, t: usize)
    ensures
        of_type_in(a + b, t) == of_type_in(a, t) + of_type_in(b, t),
{
    Seq::filter_distributes_over_add(a, b, of_type(t));
}

/// The packets that message `q` of the type `reg` makes, with `peers`
/// connected.
pub open spec fn packets_of(reg: Registration, q: QueuedMessage, peers: Seq<Peer>) -> Seq<
    (Reliability, Peer, Seq<u8>),
> {
    recipients(q.to, peers).map_values(
        |p: Peer| (reg.reliability, p, envelope_bytes(reg.fingerprint, q.content@)),
    )
}

/// The packets that the queued messages `qs` make, in order.
pub open spec fn outgoing_of(regs: Seq<Registration>, qs: Seq<QueuedMessage>, peers: Seq<Peer>) -> Seq<
    (Reliability, Peer, Seq<u8>),
>
    decreases qs.len(),
{
    if qs.len() == 0 {
        Seq::empty()
    } else {
        outgoing_of(regs, qs.drop_last(), peers) + packets_of(
            regs[qs.last().type_index as int],
            qs.last(),
            peers,
        )
    }
}

/// The deliveries to `me` that the queued messages `qs` make: one for each
/// message sent to `All`, in order.
pub open spec fn loopbacks(qs: Seq<QueuedMessage>, me: Peer) -> Seq<(usize, Peer, Seq<u8>)>
    decreases qs.len(),
{
    if qs.len() == 0 {
        Seq::empty()
    } else if qs.last().to is All {
        loopbacks(qs.drop_last(), me).push((qs.last().type_index, me, qs.last().content@))
    } else {
        loopbacks(qs.drop_last(), me)
    }
}

/// Holds of a delivery view of type `t`.
pub open spec fn of_type(t: usize) -> spec_fn((usize, Peer, Seq<u8>)) -> bool {
    |d: (usize, Peer, Seq<u8>)| d.0 == t
}

/// Holds of a delivery view of another type than `t`.
pub open spec fn not_of_type(t: usize) -> spec_fn((usize, Peer, Seq<u8>)) -> bool {
    |d: (usize, Peer, Seq<u8>)| d.0 != t
}

/// Conditioning `bytes` of type `i` from `sender` at `now` with the draws
/// given, then releasing at `now`, takes router `before` to `after`: the
/// packets that the conditioner releases, by release time, are delivered,
/// and the others stay held.
pub open spec fn conditioned_step(
    before: MessageRouter,
    after: MessageRouter,
    i: usize,
    sender: Peer,
    bytes: Seq<u8>,
    now: u64,
    loss_draw: u32,
    jitter_draw: i64,
) -> bool {
    let c = before.conditioner_of(i as int);
    let held = after_condition(c.held(), c.config_spec(), now, loss_draw, jitter_draw, sender, bytes);
    &&& after.inbox_view() == before.inbox_view() + held.filter(held_ready(now)).map_values(
        |h: (u64, Peer, Seq<u8>)| (i, h.1, h.2),
    )
    &&& after.conditioner_of(i as int).held() == held.filter(held_pending(now))
    &&& after.conditioner_of(i as int).config_spec() == c.config_spec()
}

/// The registry of message types and the queues between the transport and
/// the application.
pub struct MessageRouter {
    registrations: Vec<Registration>,
    conditioners: Vec<Option<LinkConditioner>>,
    inbox: Vec<Delivery>,
    outbox: Vec<QueuedMessage>,
}

impl MessageRouter {
    /// The registered types, by index.
    pub closed spec fn regs(&self) -> Seq<Registration> {
        self.registrations@
    }

    /// The received messages not yet taken, in arrival order.
    pub closed spec fn inbox_view(&self) -> Seq<(usize, Peer, Seq<u8>)> {
        self.inbox@.map_values(|d: Delivery| delivery_view(d))
    }

    /// The messages waiting to be sent, in the order they were queued.
    pub closed spec fn outbox_view(&self) -> Seq<QueuedMessage> {
        self.outbox@
    }

    /// Packets of type `i` pass a link conditioner before they are
    /// delivered.
    pub closed spec fn conditioned(&self, i: int) -> bool {
        0 <= i < self.conditioners@.len() && self.conditioners@[i] is Some
    }

    /// The conditioner of type `i`, where it has one.
    pub closed spec fn conditioner_of(&self, i: int) -> LinkConditioner {
        self.conditioners@[i]->0
    }

    /// There is one conditioner slot per type, and each conditioner is
    /// well formed.
    pub closed spec fn conditioners_wf(&self) -> bool {
        &&& self.conditioners@.len() == self.registrations@.len()
        &&& forall|i: int|
            0 <= i < self.conditioners@.len() ==> (#[trigger] self.conditioners@[i] matches Some(c)
                ==> c.wf())
    }

    /// No registered type is conditioned.
    pub open spec fn unconditioned(&self) -> bool {
        forall|i: int| 0 <= i < self.regs().len() ==> !#[trigger] self.conditioned(i)
    }

    /// Names and fingerprints are unique, each fingerprint is its name's,
    /// and every queued message is of a registered type.
    pub open spec fn wf(&self) -> bool {
        &&& forall|i: int, j: int|
            0 <= i < j < self.regs().len() ==> (#[trigger] self.regs()[i]).fingerprint != (
            #[trigger] self.regs()[j]).fingerprint
        &&& forall|i: int|
            0 <= i < self.regs().len() ==> (#[trigger] self.regs()[i]).fingerprint
                == fingerprint_of(self.regs()[i].name@)
        &&& forall|i: int|
            0 <= i < self.inbox_view().len() ==> (#[trigger] self.inbox_view()[i]).0
                < self.regs().len()
        &&& forall|i: int|
            0 <= i < self.outbox_view().len() ==> (#[trigger] self.outbox_view()[i]).type_index
                < self.regs().len()
        &&& self.conditioners_wf()
    }

    /// A router with no type registered and nothing queued.
    pub fn new() -> (r: Self)
        ensures
            r.wf(),
            r.regs().len() == 0,
            r.inbox_view().len() == 0,
            r.outbox_view().len() == 0,
    {
        MessageRouter {
            registrations: Vec::new(),
            conditioners: Vec::new(),
            inbox: Vec::new(),
            outbox: Vec::new(),
        }
    }

    /// The number of registered types.
    pub fn type_count(&self) -> (r: usize)
        ensures
            r == self.regs().len(),
    {
        self.registrations.len()
    }

    /// The reliability class of type `type_index`.
    pub fn reliability_of(&self, type_index: usize) -> (r: Option<Reliability>)
        ensures
            type_index < self.regs().len() ==> r == Some(self.regs()[type_index as int].reliability),
            type_index >= self.regs().len() ==> r.is_none(),
    {
        if type_index < self.registrations.len() {
            Some(self.registrations[type_index].reliability)
        } else {
            None
        }
    }

    /// Registers the message type named `name`, whose messages all travel
    /// with `reliability`, and returns its index. A name registered already,
    /// or a fingerprint that another name has, is refused and changes
    /// nothing.
    pub fn register(&mut self, name: &str, reliability: Reliability) -> (r: Result<
        usize,
        RegistrationError,
    >)
        requires
            old(self).wf(),
        ensures
            final(self).wf(),
            final(self).inbox_view() == old(self).inbox_view(),
            final(self).outbox_view() == old(self).outbox_view(),
            forall|j: int|
                0 <= j < old(self).regs().len() ==> final(self).conditioned(j) == old(
                    self,
                ).conditioned(j),
            r matches Ok(i) ==> !final(self).conditioned(i as int),
            (exists|i: int|
                0 <= i < old(self).regs().len() && (#[trigger] old(self).regs()[i]).name@ == name@)
                ==> r == Err::<usize, RegistrationError>(RegistrationError::AlreadyRegistered),
            !(exists|i: int|
                0 <= i < old(self).regs().len() && (#[trigger] old(self).regs()[i]).name@ == name@)
                && has_fingerprint(old(self).regs(), fingerprint_of(name@)) ==> r == Err::<
                usize,
                RegistrationError,
            >(RegistrationError::FingerprintCollision),
            r is Err ==> final(self).regs() == old(self).regs(),
            r is Ok <==> !has_fingerprint(old(self).regs(), fingerprint_of(name@)),
            r matches Ok(i) ==> i == old(self).regs().len() && final(self).regs().len() == i + 1
                && final(self).regs().subrange(0, i as int) == old(self).regs()
                && final(self).regs()[i as int].name@ == name@
                && final(self).regs()[i as int].fingerprint == fingerprint_of(name@)
                && final(self).regs()[i as int].reliability == reliability,
    {
        let owned = name.to_owned();
        let mut i: usize = 0;
        while i < self.registrations.len()
            invariant
                self.registrations@ == old(self).registrations@,
                self.conditioners@ == old(self).conditioners@,
                self.inbox@ == old(self).inbox@,
                self.outbox@ == old(self).outbox@,
                old(self).wf(),
                owned@ == name@,
                0 <= i <= self.registrations@.len(),
                forall|j: int| 0 <= j < i ==> (#[trigger] self.registrations@[j]).name@ != name@,
            decreases self.registrations@.len() - i,
        {
            if self.registrations[i].name == owned {
                assert(old(self).regs()[i as int].fingerprint == fingerprint_of(name@));
                assert(self.inbox_view() == old(self).inbox_view());
                return Err(RegistrationError::AlreadyRegistered);
            }
            i = i + 1;
        }
        let fingerprint = MessageWrapper::hash(name);
        let mut k: usize = 0;
        while k < self.registrations.len()
            invariant
                self.registrations@ == old(self).registrations@,
                self.conditioners@ == old(self).conditioners@,
                self.inbox@ == old(self).inbox@,
                self.outbox@ == old(self).outbox@,
                old(self).wf(),
                owned@ == name@,
                fingerprint == fingerprint_of(name@),
                forall|j: int| 0 <= j < self.registrations@.len() ==> (#[trigger] self.registrations@[j]).name@ != name@,
                0 <= k <= self.registrations@.len(),
                forall|j: int| 0 <= j < k ==> (#[trigger] self.registrations@[j]).fingerprint != fingerprint,
            decreases self.registrations@.len() - k,
        {
            if self.registrations[k].fingerprint == fingerprint {
                assert(old(self).regs()[k as int].fingerprint == fingerprint_of(name@));
                assert(self.inbox_view() == old(self).inbox_view());
                return Err(RegistrationError::FingerprintCollision);
            }
            k = k + 1;
        }
        let index = self.registrations.len();
        self.registrations.push(Registration { name: owned, fingerprint, reliability });
        self.conditioners.push(None);
        assert(self.registrations@.subrange(0, index as int) =~= old(self).registrations@);
        assert(self.inbox_view() == old(self).inbox_view());
        Ok(index)
    }

    /// Queues `content`, an encoded message of type `type_index`, for
    /// `to`; an index under which no type is registered is refused.
    pub fn send(&mut self, type_index: usize, content: Vec<u8>, to: SendType) -> (r: Result<
        (),
        SendError,
    >)
        requires
            old(self).wf(),
        ensures
            final(self).wf(),
            final(self).regs() == old(self).regs(),
            final(self).inbox_view() == old(self).inbox_view(),
            forall|j: int| #[trigger] final(self).conditioned(j) == old(self).conditioned(j),
            type_index >= old(self).regs().len() ==> r == Err::<(), SendError>(
                SendError::NotRegistered,
            ) && final(self).outbox_view() == old(self).outbox_view(),
            type_index < old(self).regs().len() ==> r is Ok && final(self).outbox_view() == old(
                self,
            ).outbox_view().push((QueuedMessage { type_index, content, to })),
    {
        if type_index >= self.registrations.len() {
            return Err(SendError::NotRegistered);
        }
        self.outbox.push(QueuedMessage { type_index, content, to });
        assert(self.inbox_view() == old(self).inbox_view());
        Ok(())
    }

    /// Makes the packets of type `type_index` pass `conditioner` before
    /// they are delivered; an index under which no type is registered is
    /// refused and changes nothing.
    pub fn attach_conditioner(&mut self, type_index: usize, conditioner: LinkConditioner) -> (r:
        Result<(), SendError>)
        requires
            old(self).wf(),
            conditioner.wf(),
        ensures
            final(self).wf(),
            final(self).regs() == old(self).regs(),
            final(self).inbox_view() == old(self).inbox_view(),
            final(self).outbox_view() == old(self).outbox_view(),
            type_index >= old(self).regs().len() ==> r == Err::<(), SendError>(
                SendError::NotRegistered,
            ) && forall|j: int| #[trigger] final(self).conditioned(j) == old(self).conditioned(j),
            type_index < old(self).regs().len() ==> r is Ok && forall|j: int|
                #[trigger] final(self).conditioned(j) == (j == type_index || old(self).conditioned(
                    j,
                )),
    {
        if type_index >= self.registrations.len() {
            return Err(SendError::NotRegistered);
        }
        let ghost c = conditioner;
        self.conditioners.set(type_index, Some(conditioner));
        assert(self.inbox_view() == old(self).inbox_view());
        assert forall|i: int| 0 <= i < self.conditioners@.len() implies (
        #[trigger] self.conditioners@[i] matches Some(x) ==> x.wf()) by {
            if i != type_index {
                assert(self.conditioners@[i] == old(self).conditioners@[i]);
            } else {
                assert(self.conditioners@[i] == Some(c));
            }
        }
        Ok(())
    }

    /// The type and content of packet `packet`, or why it has none.
    fn locate(&self, sender: Peer, packet: &Vec<u8>) -> (r: Result<(usize, Vec<u8>), RoutingError>)
        requires
            self.wf(),
        ensures
            route_one(self.regs(), sender, packet@) matches Ok(d) ==> r matches Ok(x) && x.0 == d.0
                && x.1@ == d.2 && x.0 < self.regs().len(),
            route_one(self.regs(), sender, packet@) matches Err(e) ==> r == Err::<
                (usize, Vec<u8>),
                RoutingError,
            >(e),
    {
        let w = match MessageWrapper::decode(packet) {
            Ok(w) => w,
            Err(_) => {
                return Err(RoutingError::Malformed);
            },
        };
        let mut i: usize = 0;
        while i < self.registrations.len() && self.registrations[i].fingerprint != w.type_id_hash
            invariant
                0 <= i <= self.registrations@.len(),
                forall|j: int|
                    0 <= j < i ==> (#[trigger] self.registrations@[j]).fingerprint
                        != w.type_id_hash,
            decreases self.registrations@.len() - i,
        {
            i = i + 1;
        }
        if i == self.registrations.len() {
            assert(!has_fingerprint(self.regs(), w.type_id_hash));
            return Err(RoutingError::UnknownFingerprint(w.type_id_hash));
        }
        proof {
            let regs = self.regs();
            assert(has_fingerprint(regs, w.type_id_hash));
            let c = choose|c: int| 0 <= c < regs.len() && (#[trigger] regs[c]).fingerprint
                == w.type_id_hash;
            assert(c == i);
        }
        Ok((i, w.content))
    }

    /// Delivers `content` of type `i` from `sender`: at once for a type
    /// without a conditioner; otherwise the packet is conditioned at `now`
    /// with the draws given, and every packet that the conditioner
    /// releases at `now` is delivered, by release time.
    fn deliver_at(
        &mut self,
        i: usize,
        sender: Peer,
        content: Vec<u8>,
        now: u64,
        loss_draw: u32,
        jitter_draw: i64,
    )
        requires
            old(self).wf(),
            i < old(self).regs().len(),
            1 <= loss_draw <= LOSS_SCALE,
        ensures
            final(self).wf(),
            final(self).regs() == old(self).regs(),
            final(self).outbox_view() == old(self).outbox_view(),
            forall|j: int| #[trigger] final(self).conditioned(j) == old(self).conditioned(j),
            forall|j: int|
                0 <= j < old(self).regs().len() && j != i ==> #[trigger] final(self).conditioner_of(j)
                    == old(self).conditioner_of(j),
            !old(self).conditioned(i as int) ==> final(self).inbox_view() == old(self).inbox_view().push(
                (i, sender, content@),
            ),
            old(self).conditioned(i as int) ==> conditioned_step(
                *old(self),
                *final(self),
                i,
                sender,
                content@,
                now,
                loss_draw,
                jitter_draw,
            ),
    {
        if self.conditioners[i].is_none() {
            let ghost d = (i, sender, content@);
            self.inbox.push(Delivery { type_index: i, sender, content });
            assert(self.inbox_view() =~= old(self).inbox_view().push(d));
            return;
        }
        let ghost bytes = content@;
        let slot = self.conditioners.remove(i);
        let mut conditioner = match slot {
            Some(c) => c,
            None => {
                return;
            },
        };
        assert(conditioner == old(self).conditioner_of(i as int));
        conditioner.condition_packet_at(content, sender, now, loss_draw, jitter_draw);
        let mut released = conditioner.release_at(now);
        let ghost rel = released@.map_values(|x: (u64, (Vec<u8>, Peer))| (x.0, x.1.1, x.1.0@));
        let ghost base = old(self).inbox_view();
        let ghost n: int = released@.len() as int;
        let ghost k: int = 0;
        assert(base + rel.subrange(0, 0).map_values(|h: (u64, Peer, Seq<u8>)| (i, h.1, h.2)) =~= base);
        while released.len() > 0
            invariant
                0 <= k <= n,
                n == rel.len(),
                released@.map_values(|x: (u64, (Vec<u8>, Peer))| (x.0, x.1.1, x.1.0@)) == rel.subrange(k, n),
                self.registrations@ == old(self).registrations@,
                self.conditioners@ == old(self).conditioners@.remove(i as int),
                self.outbox@ == old(self).outbox@,
                i < self.registrations@.len(),
                self.inbox_view() == base + rel.subrange(0, k).map_values(
                    |h: (u64, Peer, Seq<u8>)| (i, h.1, h.2),
                ),
            decreases released@.len(),
        {
            let ghost before = released@;
            let (_, (bytes_k, from)) = released.remove(0);
            proof {
                let g = |x: (u64, (Vec<u8>, Peer))| (x.0, x.1.1, x.1.0@);
                assert(released@ =~= before.subrange(1, before.len() as int));
                assert(before.map_values(g).len() == before.len());
                assert(rel.subrange(k, n).len() == n - k);
                assert(released@.map_values(g).len() == rel.subrange(k + 1, n).len());
                assert(before.map_values(g)[0] == rel.subrange(k, n)[0]);
                assert(released@.map_values(g) =~= rel.subrange(k + 1, n)) by {
                    assert forall|m: int| 0 <= m < released@.len() implies #[trigger] released@.map_values(g)[m]
                        == rel.subrange(k + 1, n)[m] by {
                        assert(released@[m] == before[m + 1]);
                        assert(before.map_values(g)[m + 1] == rel.subrange(k, n)[m + 1]);
                    }
                }
            }
            let ghost prev = self.inbox_view();
            self.inbox.push(Delivery { type_index: i, sender: from, content: bytes_k });
            proof {
                let f = |h: (u64, Peer, Seq<u8>)| (i, h.1, h.2);
                assert(self.inbox_view() =~= prev.push((i, from, bytes_k@)));
                assert(rel[k] == (rel[k].0, from, bytes_k@));
                assert(rel.subrange(0, k + 1) =~= rel.subrange(0, k).push(rel[k]));
                assert(rel.subrange(0, k + 1).map_values(f) =~= rel.subrange(0, k).map_values(f).push(
                    f(rel[k]),
                ));
                k = k + 1;
            }
        }
        self.conditioners.insert(i, Some(conditioner));
        proof {
            let f = |h: (u64, Peer, Seq<u8>)| (i, h.1, h.2);
            assert(rel.subrange(0, n) =~= rel);
            assert(self.conditioners@ =~= old(self).conditioners@.update(i as int, Some(conditioner)));
            assert forall|m: int| 0 <= m < self.inbox_view().len() implies (
            #[trigger] self.inbox_view()[m]).0 < self.regs().len() by {
                if m >= base.len() {
                    assert(self.inbox_view()[m] == rel.map_values(f)[m - base.len()]);
                }
            }
            assert forall|j: int| 0 <= j < old(self).regs().len() && j != i implies #[trigger] self.conditioner_of(j)
                == old(self).conditioner_of(j) by {
                assert(self.conditioners@[j] == old(self).conditioners@[j]);
            }
            assert(self.conditioner_of(i as int) == conditioner);
        }
    }

    /// Routes a packet received from `sender` at `now` on the conditioners'
    /// clock, with the draws given for a conditioned type: see `deliver_at`.
    /// A malformed packet or an unknown fingerprint is reported and changes
    /// nothing.
    pub fn route_incoming_at(
        &mut self,
        sender: Peer,
        packet: &Vec<u8>,
        now: u64,
        loss_draw: u32,
        jitter_draw: i64,
    ) -> (r: Result<usize, RoutingError>)
        requires
            old(self).wf(),
            1 <= loss_draw <= LOSS_SCALE,
        ensures
            final(self).wf(),
            final(self).regs() == old(self).regs(),
            final(self).outbox_view() == old(self).outbox_view(),
            forall|j: int| #[trigger] final(self).conditioned(j) == old(self).conditioned(j),
            route_one(old(self).regs(), sender, packet@) matches Ok(d) ==> {
                &&& r == Ok::<usize, RoutingError>(d.0)
                &&& forall|j: int|
                    0 <= j < old(self).regs().len() && j != d.0
                        ==> #[trigger] final(self).conditioner_of(j) == old(self).conditioner_of(j)
                &&& !old(self).conditioned(d.0 as int) ==> final(self).inbox_view() == old(
                    self,
                ).inbox_view().push(d)
                &&& old(self).conditioned(d.0 as int) ==> conditioned_step(
                    *old(self),
                    *final(self),
                    d.0,
                    sender,
                    d.2,
                    now,
                    loss_draw,
                    jitter_draw,
                )
            },
            route_one(old(self).regs(), sender, packet@) matches Err(e) ==> r == Err::<
                usize,
                RoutingError,
            >(e) && final(self).inbox_view() == old(self).inbox_view() && forall|j: int|
                #[trigger] final(self).conditioner_of(j) == old(self).conditioner_of(j),
    {
        let (i, content) = match self.locate(sender, packet) {
            Ok(x) => x,
            Err(e) => {
                return Err(e);
            },
        };
        self.deliver_at(i, sender, content, now, loss_draw, jitter_draw);
        Ok(i)
    }

    /// Routes a packet received from `sender`: an envelope of a registered
    /// type becomes a delivery of that type, in arrival order; for a type
    /// with a conditioner the packet is conditioned now, with fresh draws,
    /// and what the conditioner releases now is delivered. A malformed
    /// packet or an unknown fingerprint is reported and changes nothing.
    pub fn route_incoming(&mut self, sender: Peer, packet: &Vec<u8>) -> (r: Result<
        usize,
        RoutingError,
    >)
        requires
            old(self).wf(),
        ensures
            final(self).wf(),
            final(self).regs() == old(self).regs(),
            final(self).outbox_view() == old(self).outbox_view(),
            forall|j: int| #[trigger] final(self).conditioned(j) == old(self).conditioned(j),
            route_one(old(self).regs(), sender, packet@) matches Ok(d) ==> r == Ok::<
                usize,
                RoutingError,
            >(d.0) && (!old(self).conditioned(d.0 as int) ==> final(self).inbox_view() == old(
                self,
            ).inbox_view().push(d)) && (old(self).conditioned(d.0 as int) ==> exists|
                now: u64,
                loss_draw: u32,
                jitter_draw: i64,
            |
                1 <= loss_draw <= LOSS_SCALE && -(old(self).conditioner_of(
                    d.0 as int,
                ).config_spec().incoming_jitter as int) <= jitter_draw <= old(
                    self,
                ).conditioner_of(d.0 as int).config_spec().incoming_jitter
                    && #[trigger] conditioned_step(
                    *old(self),
                    *final(self),
                    d.0,
                    sender,
                    d.2,
                    now,
                    loss_draw,
                    jitter_draw,
                )),
            route_one(old(self).regs(), sender, packet@) matches Err(e) ==> r == Err::<
                usize,
                RoutingError,
            >(e) && final(self).inbox_view() == old(self).inbox_view(),
    {
        let (i, content) = match self.locate(sender, packet) {
            Ok(x) => x,
            Err(e) => {
                return Err(e);
            },
        };
        let (now, loss_draw, jitter_draw) = match &self.conditioners[i] {
            Some(c) => {
                let (l, j) = c.fresh_draws();
                (c.now(), l, j)
            },
            None => (0, 1, 0),
        };
        self.deliver_at(i, sender, content, now, loss_draw, jitter_draw);
        Ok(i)
    }

    /// Takes every delivery of type `type_index`, in arrival order; the
    /// others stay.
    pub fn drain_incoming(&mut self, type_index: usize) -> (r: Vec<Delivery>)
        requires
            old(self).wf(),
        ensures
            final(self).wf(),
            final(self).regs() == old(self).regs(),
            final(self).outbox_view() == old(self).outbox_view(),
            forall|j: int| #[trigger] final(self).conditioned(j) == old(self).conditioned(j),
            r@.map_values(|d: Delivery| delivery_view(d)) == old(self).inbox_view().filter(
                of_type(type_index),
            ),
            final(self).inbox_view() == old(self).inbox_view().filter(not_of_type(type_index)),
    {
        let mut all: Vec<Delivery> = Vec::new();
        std::mem::swap(&mut all, &mut self.inbox);
        let ghost orig = old(self).inbox_view();
        let ghost n: int = orig.len() as int;
        let mut taken: Vec<Delivery> = Vec::new();
        let ghost j: int = 0;
        assert(orig.subrange(0, 0).filter(of_type(type_index)) =~= Seq::empty()) by {
            reveal(Seq::filter);
        }
        assert(orig.subrange(0, 0).filter(not_of_type(type_index)) =~= Seq::empty()) by {
            reveal(Seq::filter);
        }
        while all.len() > 0
            invariant
                0 <= j <= n,
                n == orig.len(),
                orig == old(self).inbox_view(),
                all@.map_values(|d: Delivery| delivery_view(d)) == orig.subrange(j, n),
                self.registrations@ == old(self).registrations@,
                self.conditioners@ == old(self).conditioners@,
                self.outbox@ == old(self).outbox@,
                self.inbox_view() == orig.subrange(0, j).filter(not_of_type(type_index)),
                taken@.map_values(|d: Delivery| delivery_view(d)) == orig.subrange(0, j).filter(
                    of_type(type_index),
                ),
            decreases all@.len(),
        {
            let ghost before_all = all@.map_values(|d: Delivery| delivery_view(d));
            let ghost old_all = all@;
            let d = all.remove(0);
            proof {
                assert(all@ =~= old_all.subrange(1, old_all.len() as int));
                assert(before_all.len() == old_all.len());
                assert(orig.subrange(j, n).len() == n - j);
                assert(old_all.len() == n - j);
                assert forall|k: int| 0 <= k < all@.len() implies delivery_view(all@[k]) == orig[j + 1 + k] by {
                    assert(all@[k] == old_all[k + 1]);
                    assert(before_all[k + 1] == delivery_view(old_all[k + 1]));
                    assert(before_all[k + 1] == orig.subrange(j, n)[k + 1]);
                    assert(orig.subrange(j, n)[k + 1] == orig[j + 1 + k]);
                }
                assert(before_all.len() > 0);
                assert(before_all[0] == orig.subrange(j, n)[0]);
                assert(delivery_view(d) == before_all[0]);
                assert(orig[j] == before_all[0]);
                assert(orig.subrange(0, j + 1) =~= orig.subrange(0, j).push(orig[j]));
                orig.subrange(0, j).lemma_filter_push(orig[j], of_type(type_index));
                orig.subrange(0, j).lemma_filter_push(orig[j], not_of_type(type_index));
                assert(all@.map_values(|d: Delivery| delivery_view(d)) =~= orig.subrange(j + 1, n));
            }
            let ghost old_taken = taken@;
            let ghost old_inbox = self.inbox@;
            if d.type_index == type_index {
                taken.push(d);
                assert(taken@.map_values(|d: Delivery| delivery_view(d)) =~= old_taken.map_values(
                    |d: Delivery| delivery_view(d),
                ).push(orig[j]));
            } else {
                self.inbox.push(d);
                assert(self.inbox@.map_values(|d: Delivery| delivery_view(d)) =~= old_inbox.map_values(
                    |d: Delivery| delivery_view(d),
                ).push(orig[j]));
            }
            proof {
                j = j + 1;
            }
        }
        proof {
            assert(orig.subrange(0, n) =~= orig);
            let kept = orig.filter(not_of_type(type_index));
            assert forall|i: int| 0 <= i < self.inbox_view().len() implies (
            #[trigger] self.inbox_view()[i]).0 < self.regs().len() by {
                assert(orig.filter(not_of_type(type_index)).contains(kept[i]));
                orig.lemma_filter_contains_rev(not_of_type(type_index), kept[i]);
                let k = choose|k: int| 0 <= k < orig.len() && orig[k] == kept[i];
                assert(old(self).inbox_view()[k].0 < old(self).regs().len());
            }
        }
        taken
    }

    /// Sends every queued message, in the order queued: one packet per
    /// recipient on the type's channel, and for `All` one delivery to `me`
    /// without the transport. `peers` are the connected peers.
    pub fn route_outgoing(&mut self, me: Peer, peers: &Vec<Peer>) -> (r: Vec<OutgoingPacket>)
        requires
            old(self).wf(),
        ensures
            final(self).wf(),
            final(self).regs() == old(self).regs(),
            final(self).outbox_view().len() == 0,
            forall|j: int| #[trigger] final(self).conditioned(j) == old(self).conditioned(j),
            final(self).inbox_view() == old(self).inbox_view() + loopbacks(
                old(self).outbox_view(),
                me,
            ),
            r@.map_values(|p: OutgoingPacket| packet_view(p)) == outgoing_of(
                old(self).regs(),
                old(self).outbox_view(),
                peers@,
            ),
    {
        let mut queued: Vec<QueuedMessage> = Vec::new();
        std::mem::swap(&mut queued, &mut self.outbox);
        let ghost qs = queued@;
        let ghost regs = old(self).regs();
        let ghost n: int = qs.len() as int;
        let mut out: Vec<OutgoingPacket> = Vec::new();
        let ghost j: int = 0;
        assert(qs.subrange(0, 0) =~= Seq::<QueuedMessage>::empty());
        assert(self.inbox_view() =~= old(self).inbox_view() + loopbacks(qs.subrange(0, 0), me));
        while queued.len() > 0
            invariant
                old(self).wf(),
                qs == old(self).outbox_view(),
                regs == old(self).regs(),
                n == qs.len(),
                0 <= j <= n,
                queued@ == qs.subrange(j, n),
                self.registrations@ == regs,
                self.conditioners@ == old(self).conditioners@,
                self.outbox@.len() == 0,
                self.inbox_view() == old(self).inbox_view() + loopbacks(qs.subrange(0, j), me),
                forall|i: int|
                    0 <= i < self.inbox_view().len() ==> (#[trigger] self.inbox_view()[i]).0
                        < regs.len(),
                out@.map_values(|p: OutgoingPacket| packet_view(p)) == outgoing_of(
                    regs,
                    qs.subrange(0, j),
                    peers@,
                ),
            decreases queued@.len(),
        {
            let ghost old_queued = queued@;
            let q = queued.remove(0);
            proof {
                assert(old_queued[0] == qs.subrange(j, n)[0]);
                assert(queued@ =~= qs.subrange(j + 1, n));
                assert(q == qs[j]);
            }
            let type_index = q.type_index;
            let reliability = self.registrations[type_index].reliability;
            let wrapper = MessageWrapper {
                type_id_hash: self.registrations[type_index].fingerprint,
                content: q.content,
            };
            let bytes = wrapper.encode();
            let content = wrapper.content;
            let targets = recipients_vec(&q.to, peers);
            let ghost prev_out = out@.map_values(|p: OutgoingPacket| packet_view(p));
            push_packets(&mut out, reliability, &bytes, &targets);
            let ghost prev_inbox = self.inbox_view();
            let to_all = matches!(q.to, SendType::All);
            if to_all {
                self.inbox.push(Delivery { type_index, sender: me, content });
                assert(self.inbox_view() =~= prev_inbox.push((type_index, me, qs[j].content@)));
            }
            proof {
                let next = qs.subrange(0, j + 1);
                assert(next.drop_last() =~= qs.subrange(0, j));
                assert(next.last() == qs[j]);
                assert(targets@.map_values(|p: Peer| (reliability, p, bytes@)) =~= packets_of(
                    regs[type_index as int],
                    qs[j],
                    peers@,
                ));
                assert(out@.map_values(|p: OutgoingPacket| packet_view(p)) =~= outgoing_of(
                    regs,
                    next,
                    peers@,
                ));
                if to_all {
                    assert(loopbacks(next, me) == loopbacks(qs.subrange(0, j), me).push(
                        (type_index, me, qs[j].content@),
                    ));
                    assert(self.inbox_view() =~= old(self).inbox_view() + loopbacks(next, me));
                } else {
                    assert(loopbacks(next, me) == loopbacks(qs.subrange(0, j), me));
                }
                j = j + 1;
            }
        }
        assert(qs.subrange(0, n) =~= qs);
        out
    }

    /// Routes every packet of `received`, in order. Deliveries of a type
    /// without a conditioner are exactly those that `route_all` makes;
    /// returns the routing errors, in order.
    fn route_received(&mut self, received: &Vec<(Peer, Vec<u8>)>) -> (r: Vec<RoutingError>)
        requires
            old(self).wf(),
        ensures
            final(self).wf(),
            final(self).regs() == old(self).regs(),
            final(self).outbox_view() == old(self).outbox_view(),
            forall|j: int| #[trigger] final(self).conditioned(j) == old(self).conditioned(j),
            ({
                let routed = route_all(
                    old(self).regs(),
                    received@.map_values(|x: (Peer, Vec<u8>)| received_view(x)),
                );
                &&& r@ == routed.1
                &&& old(self).unconditioned() ==> final(self).inbox_view() == old(self).inbox_view()
                    + routed.0
                &&& forall|t: usize|
                    !old(self).conditioned(t as int) ==> #[trigger] of_type_in(
                        final(self).inbox_view(),
                        t,
                    ) == of_type_in(old(self).inbox_view() + routed.0, t)
            }),
    {
        let ghost rv = received@.map_values(|x: (Peer, Vec<u8>)| received_view(x));
        let ghost base = old(self).inbox_view();
        let ghost regs = old(self).regs();
        let mut errors: Vec<RoutingError> = Vec::new();
        let mut i: usize = 0;
        assert(rv.subrange(0, 0) =~= Seq::<(Peer, Seq<u8>)>::empty());
        assert(base + Seq::<(usize, Peer, Seq<u8>)>::empty() =~= base);
        while i < received.len()
            invariant
                self.wf(),
                regs == old(self).regs(),
                base == old(self).inbox_view(),
                self.regs() == regs,
                self.outbox_view() == old(self).outbox_view(),
                rv == received@.map_values(|x: (Peer, Vec<u8>)| received_view(x)),
                0 <= i <= received@.len(),
                forall|j: int| #[trigger] self.conditioned(j) == old(self).conditioned(j),
                errors@ == route_all(regs, rv.subrange(0, i as int)).1,
                old(self).unconditioned() ==> self.inbox_view() == base + route_all(
                    regs,
                    rv.subrange(0, i as int),
                ).0,
                forall|t: usize|
                    !old(self).conditioned(t as int) ==> #[trigger] of_type_in(self.inbox_view(), t)
                        == of_type_in(base + route_all(regs, rv.subrange(0, i as int)).0, t),
            decreases received@.len() - i,
        {
            let ghost prev = self.inbox_view();
            let ghost routed = route_all(regs, rv.subrange(0, i as int)).0;
            let ghost ro = route_one(regs, received@[i as int].0, received@[i as int].1@);
            let res = self.route_incoming(received[i].0, &received[i].1);
            proof {
                let next = rv.subrange(0, i + 1);
                assert(next.drop_last() =~= rv.subrange(0, i as int));
                assert(next.last() == received_view(received@[i as int]));
                assert(rv[i as int] == received_view(received@[i as int]));
                if let Ok(d) = ro {
                    assert(route_all(regs, next).0 == routed.push(d));
                    assert((base + routed).push(d) =~= base + routed.push(d));
                    if !old(self).conditioned(d.0 as int) {
                        assert forall|t: usize| !old(self).conditioned(t as int) implies #[trigger] of_type_in(
                            self.inbox_view(),
                            t,
                        ) == of_type_in(base + route_all(regs, next).0, t) by {
                            assert(self.inbox_view() == prev.push(d));
                            assert(base + route_all(regs, next).0 == (base + routed).push(d));
                            assert(of_type_in(prev, t) == of_type_in(base + routed, t));
                            prev.lemma_filter_push(d, of_type(t));
                            (base + routed).lemma_filter_push(d, of_type(t));
                        }
                    } else {
                        let extra = self.inbox_view().subrange(prev.len() as int, self.inbox_view().len() as int);
                        assert(self.inbox_view() =~= prev + extra);
                        assert forall|t: usize| !old(self).conditioned(t as int) implies #[trigger] of_type_in(
                            self.inbox_view(),
                            t,
                        ) == of_type_in(base + route_all(regs, next).0, t) by {
                            assert forall|k: int| 0 <= k < extra.len() implies !of_type(t)(extra[k]) by {
                                assert(extra[k] == self.inbox_view()[prev.len() + k]);
                            }
                            crate::ready_buffer::lemma_filter_drops_all(extra, of_type(t));
                            lemma_of_type_in_add(prev, extra, t);
                            assert(of_type_in(prev, t) + Seq::<(usize, Peer, Seq<u8>)>::empty() =~= of_type_in(prev, t));
                            (base + routed).lemma_filter_push(d, of_type(t));
                        }
                        assert(!old(self).unconditioned());
                    }
                }
            }
            match res {
                Ok(_) => {},
                Err(e) => {
                    errors.push(e);
                },
            }
            i = i + 1;
        }
        assert(rv.subrange(0, i as int) =~= rv);
        errors
    }

    /// One round of routing: routes the packets received on the reliable,
    /// the unreliable and the unreliable ordered channel, in that order and
    /// each in arrival order, then sends every queued message. Returns the
    /// packets for the transport and the routing errors, in order; an error
    /// leaves the other packets unaffected. Deliveries of a type without a
    /// conditioner are exact.
    pub fn route_messages(
        &mut self,
        me: Peer,
        peers: &Vec<Peer>,
        reliable: &Vec<(Peer, Vec<u8>)>,
        unreliable: &Vec<(Peer, Vec<u8>)>,
        unreliable_ordered: &Vec<(Peer, Vec<u8>)>,
    ) -> (r: (Vec<OutgoingPacket>, Vec<RoutingError>))
        requires
            old(self).wf(),
        ensures
            final(self).wf(),
            final(self).regs() == old(self).regs(),
            final(self).outbox_view().len() == 0,
            forall|j: int| #[trigger] final(self).conditioned(j) == old(self).conditioned(j),
            ({
                let received = reliable@.map_values(|x: (Peer, Vec<u8>)| received_view(x))
                    + unreliable@.map_values(|x: (Peer, Vec<u8>)| received_view(x))
                    + unreliable_ordered@.map_values(|x: (Peer, Vec<u8>)| received_view(x));
                let routed = route_all(old(self).regs(), received);
                let expected = old(self).inbox_view() + routed.0 + loopbacks(
                    old(self).outbox_view(),
                    me,
                );
                &&& r.1@ == routed.1
                &&& old(self).unconditioned() ==> final(self).inbox_view() == expected
                &&& forall|t: usize|
                    !old(self).conditioned(t as int) ==> #[trigger] of_type_in(
                        final(self).inbox_view(),
                        t,
                    ) == of_type_in(expected, t)
            }),
            r.0@.map_values(|p: OutgoingPacket| packet_view(p)) == outgoing_of(
                old(self).regs(),
                old(self).outbox_view(),
                peers@,
            ),
    {
        let ghost regs = old(self).regs();
        let ghost base = old(self).inbox_view();
        let ghost r1 = reliable@.map_values(|x: (Peer, Vec<u8>)| received_view(x));
        let ghost r2 = unreliable@.map_values(|x: (Peer, Vec<u8>)| received_view(x));
        let ghost r3 = unreliable_ordered@.map_values(|x: (Peer, Vec<u8>)| received_view(x));
        let mut errors = self.route_received(reliable);
        let ghost i1 = self.inbox_view();
        let mut more = self.route_received(unreliable);
        errors.append(&mut more);
        let ghost i2 = self.inbox_view();
        let mut last = self.route_received(unreliable_ordered);
        errors.append(&mut last);
        let ghost i3 = self.inbox_view();
        let packets = self.route_outgoing(me, peers);
        proof {
            lemma_route_all_append(regs, r1, r2);
            lemma_route_all_append(regs, r1 + r2, r3);
            let (a, b, c) = (route_all(regs, r1).0, route_all(regs, r2).0, route_all(regs, r3).0);
            let lb = loopbacks(old(self).outbox_view(), me);
            let all = route_all(regs, r1 + r2 + r3).0;
            assert(all == a + b + c);
            assert(self.inbox_view() == i3 + lb);
            if old(self).unconditioned() {
                assert(base + all + lb =~= base + a + b + c + lb);
            }
            assert forall|t: usize| !old(self).conditioned(t as int) implies #[trigger] of_type_in(
                self.inbox_view(),
                t,
            ) == of_type_in(base + all + lb, t) by {
                lemma_of_type_in_add(i3, lb, t);
                lemma_of_type_in_add(i2, c, t);
                lemma_of_type_in_add(i1, b, t);
                lemma_of_type_in_add(base, a, t);
                lemma_of_type_in_add(base + all, lb, t);
                lemma_of_type_in_add(base, all, t);
                lemma_of_type_in_add(a + b, c, t);
                lemma_of_type_in_add(a, b, t);
                assert(of_type_in(base, t) + (of_type_in(a, t) + of_type_in(b, t) + of_type_in(c, t))
                    =~= of_type_in(base, t) + of_type_in(a, t) + of_type_in(b, t) + of_type_in(c, t));
            }
        }
        (packets, errors)
    }
}

/// The transport's recipients of a message sent to `to`, with `peers`
/// connected.
fn recipients_vec(to: &SendType, peers: &Vec<Peer>) -> (r: Vec<Peer>)
    ensures
        r@ == recipients(*to, peers@),
{
    match to {
        SendType::All => copy_peers(peers),
        SendType::AllButSelf => copy_peers(peers),
        SendType::Many(list) => copy_peers(list),
        SendType::One(p) => {
            let mut v: Vec<Peer> = Vec::new();
            v.push(*p);
            assert(v@ =~= seq![*p]);
            v
        },
    }
}

/// A copy of `peers`.
fn copy_peers(peers: &Vec<Peer>) -> (r: Vec<Peer>)
    ensures
        r@ == peers@,
{
    let mut r: Vec<Peer> = Vec::new();
    let mut i: usize = 0;
    while i < peers.len()
        invariant
            0 <= i <= peers@.len(),
            r@ == peers@.subrange(0, i as int),
        decreases peers@.len() - i,
    {
        r.push(peers[i]);
        i = i + 1;
        assert(r@ =~= peers@.subrange(0, i as int));
    }
    assert(r@ =~= peers@);
    r
}

/// Appends one packet of `bytes` on `channel` for each of `targets`.
fn push_packets(
    out: &mut Vec<OutgoingPacket>,
    channel: Reliability,
    bytes: &Vec<u8>,
    targets: &Vec<Peer>,
)
    ensures
        final(out)@.map_values(|p: OutgoingPacket| packet_view(p)) == old(out)@.map_values(
            |p: OutgoingPacket| packet_view(p),
        ) + targets@.map_values(|p: Peer| (channel, p, bytes@)),
{
    let ghost base = old(out)@.map_values(|p: OutgoingPacket| packet_view(p));
    let mut i: usize = 0;
    assert(targets@.subrange(0, 0).map_values(|p: Peer| (channel, p, bytes@)) =~= Seq::<
        (Reliability, Peer, Seq<u8>),
    >::empty());
    assert(out@.map_values(|p: OutgoingPacket| packet_view(p)) =~= base + Seq::<
        (Reliability, Peer, Seq<u8>),
    >::empty());
    while i < targets.len()
        invariant
            0 <= i <= targets@.len(),
            base == old(out)@.map_values(|p: OutgoingPacket| packet_view(p)),
            out@.map_values(|p: OutgoingPacket| packet_view(p)) == base + targets@.subrange(
                0,
                i as int,
            ).map_values(|p: Peer| (channel, p, bytes@)),
        decreases targets@.len() - i,
    {
        let ghost prev = out@;
        let ghost prev_view = out@.map_values(|p: OutgoingPacket| packet_view(p));
        let ghost i0 = i as int;
        let copy = bytes.clone();
        assert(copy@ == bytes@);
        out.push(OutgoingPacket { channel, peer: targets[i], bytes: copy });
        i = i + 1;
        proof {
            let lhs = out@.map_values(|p: OutgoingPacket| packet_view(p));
            let rhs = base + targets@.subrange(0, i as int).map_values(|p: Peer| (channel, p, bytes@));
            let old_rhs = base + targets@.subrange(0, i0).map_values(|p: Peer| (channel, p, bytes@));
            assert(prev_view == old_rhs);
            assert(prev_view.len() == prev.len());
            assert(old_rhs.len() == base.len() + i0);
            assert(out@.len() == prev.len() + 1);
            assert(lhs.len() == rhs.len());
            assert forall|k: int| 0 <= k < lhs.len() implies lhs[k] == rhs[k] by {
                if k < prev.len() {
                    assert(out@[k] == prev[k]);
                    assert(prev_view[k] == packet_view(prev[k]));
                    assert(old_rhs[k] == rhs[k]);
                } else {
                    assert(k == base.len() + i0);
                    assert(packet_view(out@[k]) == (channel, targets@[i0], bytes@));
                }
            }
            assert(lhs =~= rhs);
        }
    }
    assert(targets@.subrange(0, i as int) =~= targets@);
}

} // verus!
