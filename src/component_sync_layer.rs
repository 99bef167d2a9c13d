//! Replicated objects and the arbitration of who owns them.
//!
//! Each replicated object has a `NetworkId` and an `Authority` counter. The
//! peer that holds an object `Local` broadcasts its changes; every other peer
//! holds it `Remote` and mirrors what it receives. Claiming an object raises
//! its authority by one; an update with a higher authority than the one
//! stored takes the object over, one with the same authority is mirrored,
//! and one with a lower authority is stale and ignored.
use crate::message_layer::{of_type, Delivery, MessageRouter, SendError, SendType};
use crate::wire::{
    copy_range, push_all, push_u128_le, push_u32_le, push_u64_le, read_u128_le, read_u32_le,
    read_u64_le, u128_le, u128_of_le, u32_le, u32_of_le, u64_le, u64_of_le,
};
use crate::peer_tracking::contains_peer;
use crate::Peer;
use vstd::prelude::*;

verus! {

/// Relies on `random_number::random`: a uniform draw over all of `u32`, of
/// which nothing more is known.
#[verifier::external_body]
fn random_sequence() -> u32 {
    random_number::random::<u32>()
}

/// The identity of a replicated object across peers: a sequence number and
/// the peer that spawned it.
#[derive(Copy, Clone, PartialEq, Eq, Structural, PartialOrd, Ord, Hash, Debug)]
pub struct NetworkId(pub u32, pub Peer);

impl NetworkId {
    /// A fresh id for an object spawned by `me`, with a random sequence
    /// number.
    pub fn new(me: Peer) -> (r: NetworkId)
        ensures
            r.1 == me,
    {
        NetworkId(random_sequence(), me)
    }

    /// The id with the given sequence number and owner.
    pub fn from_parts(sequence: u32, owner: Peer) -> (r: NetworkId)
        ensures
            r == NetworkId(sequence, owner),
    {
        NetworkId(sequence, owner)
    }

    /// The peer that spawned the object.
    pub fn owner(&self) -> (r: Peer)
        ensures
            r == self.1,
    {
        self.1
    }
}

/// The arbitration counter of a replicated object.
#[derive(Copy, Clone, PartialEq, Eq, Structural, PartialOrd, Ord, Hash, Debug, Default)]
pub struct Authority(pub u32);

/// The state of a replicated object that a sync message carries: its id, its
/// authority and its encoded components.
pub struct SyncMsg {
    pub network_id: NetworkId,
    pub authority: Authority,
    pub data: Vec<u8>,
}

/// A sync message as plain values.
pub struct MsgView {
    pub network_id: NetworkId,
    pub authority: u32,
    pub data: Seq<u8>,
}

pub open spec fn msg_view(m: SyncMsg) -> MsgView {
    MsgView { network_id: m.network_id, authority: m.authority.0, data: m.data@ }
}

/// Bytes of a sync message before its components.
pub const SYNC_HEADER_LEN: usize = 32;

/// The bytes of a sync message: sequence, owner, authority, the length of
/// the components and the components.
pub open spec fn sync_bytes(m: MsgView) -> Seq<u8> {
    u32_le(m.network_id.0) + u128_le(m.network_id.1.0) + u32_le(m.authority) + u64_le(
        m.data.len() as u64,
    ) + m.data
}

/// The sync message that `b` holds, or `None` where it is too short or its
/// length field disagrees with its size.
pub open spec fn parse_sync(b: Seq<u8>) -> Option<MsgView> {
    if b.len() >= 32 && u64_of_le(b.subrange(24, 32)) == b.len() - 32 {
        Some(
            MsgView {
                network_id: NetworkId(u32_of_le(b.subrange(0, 4)), Peer(u128_of_le(b.subrange(4, 20)))),
                authority: u32_of_le(b.subrange(20, 24)),
                data: b.subrange(32, b.len() as int),
            },
        )
    } else {
        None
    }
}

impl SyncMsg {
    /// The bytes of this message.
    pub fn encode(&self) -> (r: Vec<u8>)
        ensures
            r@ == sync_bytes(msg_view(*self)),
    {
        let mut out: Vec<u8> = Vec::new();
        push_u32_le(&mut out, self.network_id.0);
        push_u128_le(&mut out, self.network_id.1.0);
        push_u32_le(&mut out, self.authority.0);
        push_u64_le(&mut out, self.data.len() as u64);
        push_all(&mut out, &self.data);
        assert(out@ =~= sync_bytes(msg_view(*self)));
        out
    }

    /// The message that `bytes` holds.
    pub fn decode(bytes: &Vec<u8>) -> (r: Option<SyncMsg>)
        ensures
            parse_sync(bytes@) is None ==> r is None,
            parse_sync(bytes@) matches Some(m) ==> r matches Some(x) && msg_view(x) == m,
    {
        let len = bytes.len();
        if len < SYNC_HEADER_LEN {
            return None;
        }
        let declared = read_u64_le(bytes, 24);
        if declared != (len - SYNC_HEADER_LEN) as u64 {
            return None;
        }
        let sequence = read_u32_le(bytes, 0);
        let owner = read_u128_le(bytes, 4);
        let authority = read_u32_le(bytes, 20);
        let data = copy_range(bytes, SYNC_HEADER_LEN, len);
        Some(SyncMsg { network_id: NetworkId(sequence, Peer(owner)), authority: Authority(authority), data })
    }
}

/// Decoding the bytes of a sync message gives the message back.
pub proof fn lemma_sync_round_trip(m: MsgView)
    requires
        m.data.len() <= u64::MAX,
    ensures
        parse_sync(sync_bytes(m)) == Some(m),
{
    let b = sync_bytes(m);
    crate::wire::lemma_u32_round_trip(m.network_id.0);
    crate::wire::lemma_u128_round_trip(m.network_id.1.0);
    crate::wire::lemma_u32_round_trip(m.authority);
    crate::wire::lemma_u64_round_trip(m.data.len() as u64);
    assert(b.subrange(0, 4) =~= u32_le(m.network_id.0));
    assert(b.subrange(4, 20) =~= u128_le(m.network_id.1.0));
    assert(b.subrange(20, 24) =~= u32_le(m.authority));
    assert(b.subrange(24, 32) =~= u64_le(m.data.len() as u64));
    assert(b.subrange(32, b.len() as int) =~= m.data);
}

/// A replicated object as this peer holds it.
pub struct SyncedObject {
    pub network_id: NetworkId,
    pub authority: Authority,
    /// This peer is authoritative and broadcasts the object's changes.
    pub local: bool,
    /// The encoded components.
    pub data: Vec<u8>,
    /// The components or the authority changed since the last broadcast
    /// round.
    pub changed: bool,
    /// The peer whose disconnection removes the object: its spawner, then
    /// whoever last took it over or claimed it.
    pub owner: Peer,
}

/// A replicated object as plain values.
pub struct ObjectView {
    pub network_id: NetworkId,
    pub authority: u32,
    pub local: bool,
    pub data: Seq<u8>,
    pub changed: bool,
    pub owner: Peer,
}

pub open spec fn object_view(o: SyncedObject) -> ObjectView {
    ObjectView {
        network_id: o.network_id,
        authority: o.authority.0,
        local: o.local,
        data: o.data@,
        changed: o.changed,
        owner: o.owner,
    }
}

/// What an inbound update did.
#[derive(Copy, Clone, PartialEq, Eq, Structural, Debug)]
pub enum ApplyOutcome {
    /// No object has the update's id; nothing changed.
    Unmapped,
    /// The update's authority is lower than the stored one; nothing changed.
    Stale,
    /// Same authority: the components were overwritten.
    Mirrored,
    /// Higher authority: it was stored, the object became remote and the
    /// components were overwritten.
    TakenOver,
}

/// What applying `m` to the object `o` does.
pub open spec fn apply_outcome(o: ObjectView, m: MsgView) -> ApplyOutcome {
    if m.authority < o.authority {
        ApplyOutcome::Stale
    } else if m.authority == o.authority {
        ApplyOutcome::Mirrored
    } else {
        ApplyOutcome::TakenOver
    }
}

/// The object `o` after the update `m` sent by `from`; a takeover makes
/// `from` the owner.
pub open spec fn apply_spec(o: ObjectView, m: MsgView, from: Peer) -> ObjectView {
    if m.authority < o.authority {
        o
    } else if m.authority == o.authority {
        ObjectView {
            network_id: o.network_id,
            authority: o.authority,
            local: o.local,
            data: m.data,
            changed: true,
            owner: o.owner,
        }
    } else {
        ObjectView {
            network_id: o.network_id,
            authority: m.authority,
            local: false,
            data: m.data,
            changed: true,
            owner: from,
        }
    }
}

/// The object that a first remote reference to `id` creates, before the
/// reference is applied.
pub open spec fn fresh_remote(id: NetworkId) -> ObjectView {
    ObjectView {
        network_id: id,
        authority: 0,
        local: false,
        data: Seq::empty(),
        changed: false,
        owner: id.1,
    }
}

/// The object `o` after this peer, `me`, claims (or claims again) it: one
/// more authority, local, owned by `me`, to be broadcast.
pub open spec fn claim_spec(o: ObjectView, me: Peer) -> ObjectView {
    ObjectView {
        network_id: o.network_id,
        authority: (o.authority + 1) as u32,
        local: true,
        data: o.data,
        changed: true,
        owner: me,
    }
}

/// Two claims on the same object, with authorities `a < b`: once both
/// updates have arrived, in either order, at a peer that had stored no
/// authority above `b`, the object holds authority `b` and the components
/// carried with it, and it is remote unless that peer is the one that
/// claimed with `b`.
pub proof fn lemma_arbitration_converges(
    o: ObjectView,
    ma: MsgView,
    fa: Peer,
    mb: MsgView,
    fb: Peer,
)
    requires
        ma.authority < mb.authority,
        o.authority <= mb.authority,
    ensures
        apply_spec(apply_spec(o, ma, fa), mb, fb).data == mb.data,
        apply_spec(apply_spec(o, mb, fb), ma, fa).data == mb.data,
        apply_spec(apply_spec(o, ma, fa), mb, fb).authority == mb.authority,
        apply_spec(apply_spec(o, mb, fb), ma, fa).authority == mb.authority,
        o.authority < mb.authority ==> !apply_spec(apply_spec(o, ma, fa), mb, fb).local
            && !apply_spec(apply_spec(o, mb, fb), ma, fa).local,
{
}

/// An update applied twice leaves the object as applying it once does; the
/// authority does not move again.
pub proof fn lemma_apply_idempotent(o: ObjectView, m: MsgView, from: Peer)
    ensures
        apply_spec(apply_spec(o, m, from), m, from) == apply_spec(o, m, from),
{
}

/// Holds of an object whose owner is not in `gone`.
pub open spec fn survives(gone: Seq<Peer>) -> spec_fn(ObjectView) -> bool {
    |o: ObjectView| !gone.contains(o.owner)
}

/// Holds of an object that this peer broadcasts.
pub open spec fn to_broadcast() -> spec_fn(ObjectView) -> bool {
    |o: ObjectView| o.local && o.changed
}

/// The message that broadcasts `o`.
pub open spec fn broadcast_msg(o: ObjectView) -> MsgView {
    MsgView { network_id: o.network_id, authority: o.authority, data: o.data }
}

/// The object `o` once its change has been broadcast.
pub open spec fn settled(o: ObjectView) -> ObjectView {
    ObjectView {
        network_id: o.network_id,
        authority: o.authority,
        local: o.local,
        data: o.data,
        changed: false,
        owner: o.owner,
    }
}

/// The objects `objs` after the update `m` sent by `from`: the object with
/// its id changes as `apply_spec` says; where no object has the id, a spawn
/// maps a new remote object first, and an update changes nothing.
pub open spec fn apply_msg(objs: Seq<ObjectView>, m: MsgView, from: Peer, spawn: bool) -> Seq<
    ObjectView,
> {
    if exists|i: int| 0 <= i < objs.len() && (#[trigger] objs[i]).network_id == m.network_id {
        let i = choose|i: int| 0 <= i < objs.len() && (#[trigger] objs[i]).network_id == m.network_id;
        objs.update(i, apply_spec(objs[i], m, from))
    } else if spawn {
        objs.push(apply_spec(fresh_remote(m.network_id), m, from))
    } else {
        objs
    }
}

/// Holds of a received message whose bytes are no sync message.
pub open spec fn undecodable() -> spec_fn((Peer, Seq<u8>)) -> bool {
    |c: (Peer, Seq<u8>)| parse_sync(c.1) is None
}

/// The objects `objs` after the messages in `contents`, each with its
/// sender, in order; bytes that are no sync message change nothing.
pub open spec fn apply_contents(
    objs: Seq<ObjectView>,
    contents: Seq<(Peer, Seq<u8>)>,
    spawn: bool,
) -> Seq<ObjectView>
    decreases contents.len(),
{
    if contents.len() == 0 {
        objs
    } else {
        let prev = apply_contents(objs, contents.drop_last(), spawn);
        match parse_sync(contents.last().1) {
            Some(m) => apply_msg(prev, m, contents.last().0, spawn),
            None => prev,
        }
    }
}

/// The senders and contents of the deliveries of type `t` in `inbox`, in
/// order.
pub open spec fn contents_of_type(inbox: Seq<(usize, Peer, Seq<u8>)>, t: usize) -> Seq<
    (Peer, Seq<u8>),
> {
    inbox.filter(of_type(t)).map_values(|d: (usize, Peer, Seq<u8>)| (d.1, d.2))
}

/// Why claiming an object failed.
#[derive(Copy, Clone, PartialEq, Eq, Structural, Debug)]
pub enum ClaimError {
    /// No object has the id.
    NotMapped,
    /// The authority is at its largest value and cannot be raised.
    AuthorityExhausted,
}

/// The replicated objects of this peer, by id.
pub struct NetworkEntityMapper {
    objects: Vec<SyncedObject>,
}

impl NetworkEntityMapper {
    /// The objects, in the order they were first mapped.
    pub closed spec fn objects(&self) -> Seq<ObjectView> {
        self.objects@.map_values(|o: SyncedObject| object_view(o))
    }

    /// No two objects share an id.
    pub open spec fn wf(&self) -> bool {
        forall|i: int, j: int|
            0 <= i < j < self.objects().len() ==> (#[trigger] self.objects()[i]).network_id != (
            #[trigger] self.objects()[j]).network_id
    }

    /// Some object has id `id`.
    pub open spec fn maps(&self, id: NetworkId) -> bool {
        exists|i: int| 0 <= i < self.objects().len() && (#[trigger] self.objects()[i]).network_id == id
    }

    /// An empty mapper.
    pub fn new() -> (r: Self)
        ensures
            r.wf(),
            r.objects().len() == 0,
    {
        NetworkEntityMapper { objects: Vec::new() }
    }

    /// The number of objects.
    pub fn len(&self) -> (r: usize)
        ensures
            r == self.objects().len(),
    {
        self.objects.len()
    }

    /// The position of the object with id `id`.
    fn find(&self, id: NetworkId) -> (r: Option<usize>)
        ensures
            r matches Some(i) ==> i < self.objects().len() && self.objects()[i as int].network_id
                == id,
            r is None ==> !self.maps(id),
    {
        let mut i: usize = 0;
        while i < self.objects.len()
            invariant
                0 <= i <= self.objects@.len(),
                forall|j: int| 0 <= j < i ==> (#[trigger] self.objects@[j]).network_id != id,
            decreases self.objects@.len() - i,
        {
            if self.objects[i].network_id == id {
                assert(self.objects()[i as int] == object_view(self.objects@[i as int]));
                return Some(i);
            }
            i = i + 1;
        }
        assert forall|j: int| 0 <= j < self.objects().len() implies (
        #[trigger] self.objects()[j]).network_id != id by {
            assert(self.objects()[j] == object_view(self.objects@[j]));
        }
        None
    }

    /// The object with id `id`.
    pub fn get(&self, id: NetworkId) -> (r: Option<&SyncedObject>)
        requires
            self.wf(),
        ensures
            r is None <==> !self.maps(id),
            r matches Some(o) ==> o.network_id == id && exists|i: int|
                0 <= i < self.objects().len() && self.objects()[i] == object_view(*o),
    {
        match self.find(id) {
            Some(i) => {
                assert(self.objects()[i as int] == object_view(self.objects@[i as int]));
                Some(&self.objects[i])
            },
            None => None,
        }
    }

    /// Replaces the object at `i` and keeps the other objects.
    fn replace(&mut self, i: usize, o: SyncedObject)
        requires
            i < old(self).objects().len(),
            old(self).wf(),
            o.network_id == old(self).objects()[i as int].network_id,
        ensures
            final(self).wf(),
            final(self).objects() == old(self).objects().update(i as int, object_view(o)),
    {
        let ghost v = object_view(o);
        self.objects.set(i, o);
        assert(self.objects() =~= old(self).objects().update(i as int, v));
    }

    /// Maps a new object that this peer spawns and owns: authority 0, local,
    /// to be broadcast. An id mapped already is refused and changes nothing.
    pub fn spawn_local(&mut self, id: NetworkId, data: Vec<u8>) -> (r: bool)
        requires
            old(self).wf(),
        ensures
            final(self).wf(),
            r == !old(self).maps(id),
            !r ==> final(self).objects() == old(self).objects(),
            r ==> final(self).objects() == old(self).objects().push(
                (ObjectView {
                    network_id: id,
                    authority: 0,
                    local: true,
                    data: data@,
                    changed: true,
                    owner: id.1,
                }),
            ),
    {
        if self.find(id).is_some() {
            return false;
        }
        let ghost v = ObjectView {
            network_id: id,
            authority: 0,
            local: true,
            data: data@,
            changed: true,
            owner: id.1,
        };
        self.objects.push(
            SyncedObject { network_id: id, authority: Authority(0), local: true, data, changed: true, owner: id.1 },
        );
        assert(self.objects() =~= old(self).objects().push(v));
        true
    }

    /// Applies an inbound update: see `apply_spec`. An update for an id that
    /// is not mapped is ignored.
    pub fn apply_update(&mut self, msg: SyncMsg, from: Peer) -> (r: ApplyOutcome)
        requires
            old(self).wf(),
        ensures
            final(self).wf(),
            !old(self).maps(msg.network_id) ==> r == ApplyOutcome::Unmapped && final(self).objects()
                == old(self).objects(),
            forall|i: int|
                0 <= i < old(self).objects().len() && (#[trigger] old(self).objects()[i]).network_id
                    == msg.network_id ==> r == apply_outcome(old(self).objects()[i], msg_view(msg))
                    && final(self).objects() == old(self).objects().update(
                    i,
                    apply_spec(old(self).objects()[i], msg_view(msg), from),
                ),
    {
        match self.find(msg.network_id) {
            None => ApplyOutcome::Unmapped,
            Some(i) => {
                let r = self.apply_at(i, msg, from);
                proof {
                    assert forall|j: int|
                        0 <= j < old(self).objects().len() && (#[trigger] old(self).objects()[j]).network_id
                            == msg.network_id implies j == i by {
                        if j != i {
                            if j < i {
                                assert(old(self).objects()[j].network_id != old(self).objects()[i as int].network_id);
                            } else {
                                assert(old(self).objects()[i as int].network_id != old(self).objects()[j].network_id);
                            }
                        }
                    }
                }
                r
            },
        }
    }

    /// Applies `msg` to the object at `i`.
    fn apply_at(&mut self, i: usize, msg: SyncMsg, from: Peer) -> (r: ApplyOutcome)
        requires
            old(self).wf(),
            i < old(self).objects().len(),
            old(self).objects()[i as int].network_id == msg.network_id,
        ensures
            final(self).wf(),
            r == apply_outcome(old(self).objects()[i as int], msg_view(msg)),
            final(self).objects() == old(self).objects().update(
                i as int,
                apply_spec(old(self).objects()[i as int], msg_view(msg), from),
            ),
    {
        assert(self.objects()[i as int] == object_view(self.objects@[i as int]));
        let stored = self.objects[i].authority.0;
        let local = self.objects[i].local;
        let owner = self.objects[i].owner;
        if msg.authority.0 < stored {
            assert(old(self).objects().update(i as int, old(self).objects()[i as int]) =~= old(self).objects());
            ApplyOutcome::Stale
        } else if msg.authority.0 == stored {
            self.replace(i, SyncedObject { network_id: msg.network_id, authority: Authority(stored), local, data: msg.data, changed: true, owner });
            ApplyOutcome::Mirrored
        } else {
            self.replace(i, SyncedObject { network_id: msg.network_id, authority: msg.authority, local: false, data: msg.data, changed: true, owner: from });
            ApplyOutcome::TakenOver
        }
    }

    /// Applies a spawn message: a first reference to an id maps a new remote
    /// object, to which the message is then applied as an update; for an id
    /// mapped already it is an update.
    pub fn apply_spawn(&mut self, msg: SyncMsg, from: Peer) -> (r: ApplyOutcome)
        requires
            old(self).wf(),
        ensures
            final(self).wf(),
            !old(self).maps(msg.network_id) ==> r == apply_outcome(fresh_remote(msg.network_id), msg_view(msg))
                && final(self).objects() == old(self).objects().push(
                apply_spec(fresh_remote(msg.network_id), msg_view(msg), from),
            ),
            forall|i: int|
                0 <= i < old(self).objects().len() && (#[trigger] old(self).objects()[i]).network_id
                    == msg.network_id ==> r == apply_outcome(old(self).objects()[i], msg_view(msg))
                    && final(self).objects() == old(self).objects().update(
                    i,
                    apply_spec(old(self).objects()[i], msg_view(msg), from),
                ),
    {
        if self.find(msg.network_id).is_none() {
            let n = self.objects.len();
            self.objects.push(SyncedObject { network_id: msg.network_id, authority: Authority(0), local: false, data: Vec::new(), changed: false, owner: msg.network_id.1 });
            proof {
                assert(self.objects() =~= old(self).objects().push(fresh_remote(msg.network_id)));
                assert forall|a: int, b: int|
                    0 <= a < b < self.objects().len() implies (#[trigger] self.objects()[a]).network_id != (
                    #[trigger] self.objects()[b]).network_id by {
                    if b == n {
                        assert(old(self).objects()[a].network_id != msg.network_id);
                    }
                }
            }
            let r = self.apply_at(n, msg, from);
            assert(self.objects() =~= old(self).objects().push(apply_spec(fresh_remote(msg.network_id), msg_view(msg), from)));
            r
        } else {
            self.apply_update(msg, from)
        }
    }

    /// Claims the object with id `id` for this peer, `me`, which becomes its
    /// owner: it becomes local and its
    /// authority rises by one, also where it was local already, so that a
    /// repeated claim settles a tie. At the largest authority the claim is
    /// refused and changes nothing.
    pub fn claim(&mut self, id: NetworkId, me: Peer) -> (r: Result<(), ClaimError>)
        requires
            old(self).wf(),
        ensures
            final(self).wf(),
            !old(self).maps(id) ==> r == Err::<(), ClaimError>(ClaimError::NotMapped)
                && final(self).objects() == old(self).objects(),
            forall|i: int|
                0 <= i < old(self).objects().len() && (#[trigger] old(self).objects()[i]).network_id
                    == id ==> if old(self).objects()[i].authority == u32::MAX {
                    r == Err::<(), ClaimError>(ClaimError::AuthorityExhausted) && final(self).objects()
                        == old(self).objects()
                } else {
                    r is Ok && final(self).objects() == old(self).objects().update(
                        i,
                        claim_spec(old(self).objects()[i], me),
                    )
                },
    {
        let i = match self.find(id) {
            None => {
                return Err(ClaimError::NotMapped);
            },
            Some(i) => i,
        };
        proof {
            assert forall|j: int|
                0 <= j < old(self).objects().len() && (#[trigger] old(self).objects()[j]).network_id
                    == id implies j == i by {
                if j < i {
                    assert(old(self).objects()[j].network_id != old(self).objects()[i as int].network_id);
                } else if j > i {
                    assert(old(self).objects()[i as int].network_id != old(self).objects()[j].network_id);
                }
            }
            assert(self.objects()[i as int] == object_view(self.objects@[i as int]));
        }
        let authority = self.objects[i].authority.0;
        if authority == u32::MAX {
            return Err(ClaimError::AuthorityExhausted);
        }
        let data = self.objects[i].data.clone();
        self.replace(i, SyncedObject { network_id: id, authority: Authority(authority + 1), local: true, data, changed: true, owner: me });
        Ok(())
    }

    /// Replaces the components of the object with id `id`, a local change;
    /// it is broadcast only where this peer holds the object local.
    pub fn set_data(&mut self, id: NetworkId, data: Vec<u8>) -> (r: bool)
        requires
            old(self).wf(),
        ensures
            final(self).wf(),
            r == old(self).maps(id),
            !r ==> final(self).objects() == old(self).objects(),
            forall|i: int|
                0 <= i < old(self).objects().len() && (#[trigger] old(self).objects()[i]).network_id
                    == id ==> final(self).objects() == old(self).objects().update(
                    i,
                    (ObjectView {
                        network_id: id,
                        authority: old(self).objects()[i].authority,
                        local: old(self).objects()[i].local,
                        data: data@,
                        changed: true,
                        owner: old(self).objects()[i].owner,
                    }),
                ),
    {
        let i = match self.find(id) {
            None => {
                return false;
            },
            Some(i) => i,
        };
        proof {
            assert forall|j: int|
                0 <= j < old(self).objects().len() && (#[trigger] old(self).objects()[j]).network_id
                    == id implies j == i by {
                if j < i {
                    assert(old(self).objects()[j].network_id != old(self).objects()[i as int].network_id);
                } else if j > i {
                    assert(old(self).objects()[i as int].network_id != old(self).objects()[j].network_id);
                }
            }
            assert(self.objects()[i as int] == object_view(self.objects@[i as int]));
        }
        let authority = self.objects[i].authority;
        let local = self.objects[i].local;
        let owner = self.objects[i].owner;
        self.replace(i, SyncedObject { network_id: id, authority, local, data, changed: true, owner });
        true
    }

    /// The messages of this round's broadcast: one for each local object
    /// that changed, in order; afterwards no object counts as changed.
    pub fn collect_broadcasts(&mut self) -> (r: Vec<SyncMsg>)
        requires
            old(self).wf(),
        ensures
            final(self).wf(),
            final(self).objects() == old(self).objects().map_values(|o: ObjectView| settled(o)),
            r@.map_values(|m: SyncMsg| msg_view(m)) == old(self).objects().filter(
                to_broadcast(),
            ).map_values(|o: ObjectView| broadcast_msg(o)),
    {
        let ghost orig = old(self).objects();
        let ghost n: int = orig.len() as int;
        let mut out: Vec<SyncMsg> = Vec::new();
        let mut i: usize = 0;
        assert(orig.subrange(0, 0).filter(to_broadcast()) =~= Seq::empty()) by {
            reveal(Seq::filter);
        }
        assert(self.objects() =~= orig.map_values(|o: ObjectView| settled(o)).subrange(0, 0)
            + orig.subrange(0, n));
        while i < self.objects.len()
            invariant
                orig == old(self).objects(),
                n == orig.len(),
                0 <= i <= n,
                self.objects@.len() == n,
                self.objects() == orig.map_values(|o: ObjectView| settled(o)).subrange(0, i as int)
                    + orig.subrange(i as int, n),
                out@.map_values(|m: SyncMsg| msg_view(m)) == orig.subrange(0, i as int).filter(
                    to_broadcast(),
                ).map_values(|o: ObjectView| broadcast_msg(o)),
            decreases n - i,
        {
            let ghost before = self.objects();
            let ghost raw_before = self.objects@;
            assert(before[i as int] == orig[i as int]);
            assert(before[i as int] == object_view(self.objects@[i as int]));
            let o = self.objects.remove(i);
            let ghost prev_out = out@.map_values(|m: SyncMsg| msg_view(m));
            let send = o.local && o.changed;
            if send {
                let ghost m = broadcast_msg(orig[i as int]);
                out.push(SyncMsg { network_id: o.network_id, authority: o.authority, data: o.data.clone() });
                assert(out@.map_values(|m: SyncMsg| msg_view(m)) =~= prev_out.push(m));
            }
            let ghost settled_o = settled(orig[i as int]);
            self.objects.insert(i, SyncedObject { network_id: o.network_id, authority: o.authority, local: o.local, data: o.data, changed: false, owner: o.owner });
            proof {
                let sub = orig.subrange(0, i as int);
                assert(orig.subrange(0, i + 1) =~= sub.push(orig[i as int]));
                sub.lemma_filter_push(orig[i as int], to_broadcast());
                if send {
                    assert(sub.push(orig[i as int]).filter(to_broadcast()).map_values(|o: ObjectView| broadcast_msg(o))
                        =~= sub.filter(to_broadcast()).map_values(|o: ObjectView| broadcast_msg(o)).push(broadcast_msg(orig[i as int])));
                }
                assert(self.objects@ =~= raw_before.update(i as int, self.objects@[i as int]));
                assert(object_view(self.objects@[i as int]) == settled_o);
                assert(self.objects() =~= before.update(i as int, settled_o));
                assert(self.objects() =~= orig.map_values(|o: ObjectView| settled(o)).subrange(0, i + 1)
                    + orig.subrange(i + 1, n));
            }
            i = i + 1;
        }
        proof {
            assert(orig.subrange(0, n) =~= orig);
            assert(orig.subrange(n, n) =~= Seq::<ObjectView>::empty());
            assert(orig.map_values(|o: ObjectView| settled(o)).subrange(0, n) =~= orig.map_values(|o: ObjectView| settled(o)));
            assert(self.objects() =~= orig.map_values(|o: ObjectView| settled(o)));
        }
        out
    }

    /// Removes every object owned by a peer of `gone`, the peers that
    /// disconnected this round, and returns how many were removed.
    pub fn despawn_owned_by(&mut self, gone: &Vec<Peer>) -> (r: usize)
        requires
            old(self).wf(),
        ensures
            final(self).wf(),
            final(self).objects() == old(self).objects().filter(survives(gone@)),
            r == old(self).objects().len() - final(self).objects().len(),
    {
        let mut all: Vec<SyncedObject> = Vec::new();
        std::mem::swap(&mut all, &mut self.objects);
        let ghost orig = old(self).objects();
        let ghost n: int = orig.len() as int;
        let ghost j: int = 0;
        let mut removed: usize = 0;
        let total = all.len();
        assert(all@.map_values(|o: SyncedObject| object_view(o)) =~= orig);
        assert(orig.subrange(0, 0).filter(survives(gone@)) =~= Seq::empty()) by {
            reveal(Seq::filter);
        }
        while all.len() > 0
            invariant
                0 <= j <= n,
                n == orig.len(),
                n == total,
                orig == old(self).objects(),
                all@.map_values(|o: SyncedObject| object_view(o)) == orig.subrange(j, n),
                self.objects() == orig.subrange(0, j).filter(survives(gone@)),
                removed == j - self.objects().len(),
                self.objects().len() <= j,
            decreases all@.len(),
        {
            let ghost before_all = all@.map_values(|o: SyncedObject| object_view(o));
            let ghost old_all = all@;
            let o = all.remove(0);
            proof {
                assert(all@ =~= old_all.subrange(1, old_all.len() as int));
                assert(before_all.len() == old_all.len());
                assert(orig.subrange(j, n).len() == n - j);
                assert(old_all.len() == n - j);
                assert forall|k: int| 0 <= k < all@.len() implies object_view(all@[k]) == orig[j + 1 + k] by {
                    assert(all@[k] == old_all[k + 1]);
                    assert(before_all[k + 1] == object_view(old_all[k + 1]));
                    assert(before_all[k + 1] == orig.subrange(j, n)[k + 1]);
                    assert(orig.subrange(j, n)[k + 1] == orig[j + 1 + k]);
                }
                assert(all@.map_values(|o: SyncedObject| object_view(o)) =~= orig.subrange(j + 1, n));
                assert(before_all[0] == orig.subrange(j, n)[0]);
                assert(object_view(o) == orig[j]);
                assert(orig.subrange(0, j + 1) =~= orig.subrange(0, j).push(orig[j]));
                orig.subrange(0, j).lemma_filter_push(orig[j], survives(gone@));
            }
            let ghost prev = self.objects();
            if contains_peer(gone, o.owner) {
                removed = removed + 1;
            } else {
                self.objects.push(o);
                assert(self.objects() =~= prev.push(orig[j]));
            }
            proof {
                j = j + 1;
            }
        }
        proof {
            assert(orig.subrange(0, n) =~= orig);
            let kept = self.objects();
            assert forall|a: int, b: int| 0 <= a < b < kept.len() implies (#[trigger] kept[a]).network_id != (
            #[trigger] kept[b]).network_id by {
                lemma_filter_preserves_order(orig, survives(gone@), a, b);
            }
        }
        removed
    }

    /// Broadcasts this round's changes through `router` as messages of type
    /// `type_index`, to every peer but this one, and returns how many were
    /// queued. An index under which no type is registered is refused and
    /// changes nothing.
    pub fn broadcast(&mut self, router: &mut MessageRouter, type_index: usize) -> (r: Result<
        usize,
        SendError,
    >)
        requires
            old(self).wf(),
            old(router).wf(),
        ensures
            final(self).wf(),
            final(router).wf(),
            final(router).regs() == old(router).regs(),
            final(router).inbox_view() == old(router).inbox_view(),
            forall|j: int| #[trigger] final(router).conditioned(j) == old(router).conditioned(j),
            type_index >= old(router).regs().len() ==> r == Err::<usize, SendError>(
                SendError::NotRegistered,
            ) && final(self).objects() == old(self).objects() && final(router).outbox_view()
                == old(router).outbox_view(),
            type_index < old(router).regs().len() ==> ({
                let msgs = old(self).objects().filter(to_broadcast()).map_values(
                    |o: ObjectView| broadcast_msg(o),
                );
                let base = old(router).outbox_view().len();
                &&& r == Ok::<usize, SendError>(msgs.len() as usize)
                &&& final(self).objects() == old(self).objects().map_values(
                    |o: ObjectView| settled(o),
                )
                &&& final(router).outbox_view().len() == base + msgs.len()
                &&& final(router).outbox_view().subrange(0, base as int) == old(
                    router,
                ).outbox_view()
                &&& forall|k: int|
                    0 <= k < msgs.len() ==> {
                        let q = #[trigger] final(router).outbox_view()[base + k];
                        &&& q.type_index == type_index
                        &&& q.content@ == sync_bytes(msgs[k])
                        &&& q.to is AllButSelf
                    }
            }),
    {
        if type_index >= router.type_count() {
            return Err(SendError::NotRegistered);
        }
        let msgs = self.collect_broadcasts();
        let ghost base = old(router).outbox_view().len();
        let ghost mv = msgs@.map_values(|m: SyncMsg| msg_view(m));
        let mut i: usize = 0;
        while i < msgs.len()
            invariant
                0 <= i <= msgs@.len(),
                mv == msgs@.map_values(|m: SyncMsg| msg_view(m)),
                router.wf(),
                type_index < router.regs().len(),
                router.regs() == old(router).regs(),
                router.inbox_view() == old(router).inbox_view(),
                forall|j: int| #[trigger] router.conditioned(j) == old(router).conditioned(j),
                router.outbox_view().len() == base + i,
                router.outbox_view().subrange(0, base as int) == old(router).outbox_view(),
                forall|k: int|
                    0 <= k < i ==> {
                        let q = #[trigger] router.outbox_view()[base + k];
                        &&& q.type_index == type_index
                        &&& q.content@ == sync_bytes(mv[k])
                        &&& q.to is AllButSelf
                    },
            decreases msgs@.len() - i,
        {
            let bytes = msgs[i].encode();
            assert(msg_view(msgs@[i as int]) == mv[i as int]);
            let ghost prev = router.outbox_view();
            let _ = router.send(type_index, bytes, SendType::AllButSelf);
            proof {
                assert(router.outbox_view().subrange(0, base as int) =~= prev.subrange(0, base as int));
                assert forall|k: int| 0 <= k < i + 1 implies {
                    let q = #[trigger] router.outbox_view()[base + k];
                    &&& q.type_index == type_index
                    &&& q.content@ == sync_bytes(mv[k])
                    &&& q.to is AllButSelf
                } by {
                    if k < i {
                        assert(router.outbox_view()[base + k] == prev[base + k]);
                    }
                }
            }
            i = i + 1;
        }
        Ok(msgs.len())
    }

    /// Takes every received message of type `type_index` from `router` and
    /// applies it, in arrival order: as a spawn where `spawn` holds, else as
    /// an update. A message that does not decode is skipped; the number of
    /// those is returned.
    pub fn apply_inbound(&mut self, router: &mut MessageRouter, type_index: usize, spawn: bool) -> (r:
        usize)
        requires
            old(self).wf(),
            old(router).wf(),
        ensures
            final(self).wf(),
            final(router).wf(),
            final(router).regs() == old(router).regs(),
            final(router).outbox_view() == old(router).outbox_view(),
            forall|j: int| #[trigger] final(router).conditioned(j) == old(router).conditioned(j),
            final(router).inbox_view() == old(router).inbox_view().filter(
                crate::message_layer::not_of_type(type_index),
            ),
            final(self).objects() == apply_contents(
                old(self).objects(),
                contents_of_type(old(router).inbox_view(), type_index),
                spawn,
            ),
            r == contents_of_type(old(router).inbox_view(), type_index).filter(undecodable()).len(),
    {
        let deliveries = router.drain_incoming(type_index);
        let ghost contents = contents_of_type(old(router).inbox_view(), type_index);
        proof {
            assert(deliveries@.map_values(|d: Delivery| (d.sender, d.content@)) =~= contents);
        }
        let mut failures: usize = 0;
        let mut i: usize = 0;
        assert(contents.subrange(0, 0).filter(undecodable()) =~= Seq::empty()) by {
            reveal(Seq::filter);
        }
        while i < deliveries.len()
            invariant
                self.wf(),
                0 <= i <= deliveries@.len(),
                contents == deliveries@.map_values(|d: Delivery| (d.sender, d.content@)),
                self.objects() == apply_contents(old(self).objects(), contents.subrange(0, i as int), spawn),
                failures == contents.subrange(0, i as int).filter(undecodable()).len(),
                failures <= i,
            decreases deliveries@.len() - i,
        {
            let ghost before = self.objects();
            proof {
                let next = contents.subrange(0, i + 1);
                assert(next.drop_last() =~= contents.subrange(0, i as int));
                assert(next.last() == (deliveries@[i as int].sender, deliveries@[i as int].content@));
                assert(contents.subrange(0, i + 1) =~= contents.subrange(0, i as int).push(contents[i as int]));
                contents.subrange(0, i as int).lemma_filter_push(contents[i as int], undecodable());
            }
            let from = deliveries[i].sender;
            match SyncMsg::decode(&deliveries[i].content) {
                Some(m) => {
                    let ghost mv = msg_view(m);
                    if spawn {
                        self.apply_spawn(m, from);
                    } else {
                        self.apply_update(m, from);
                    }
                    proof {
                        if exists|k: int| 0 <= k < before.len() && (#[trigger] before[k]).network_id == mv.network_id {
                            let k = choose|k: int| 0 <= k < before.len() && (#[trigger] before[k]).network_id == mv.network_id;
                            assert(self.objects() == before.update(k, apply_spec(before[k], mv, from)));
                        }
                    }
                },
                None => {
                    failures = failures + 1;
                },
            }
            i = i + 1;
        }
        assert(contents.subrange(0, i as int) =~= contents);
        failures
    }
}

/// Filtering keeps the relative order of what it keeps: two kept items
/// stand at increasing positions of `s`.
proof fn lemma_filter_preserves_order<A>(s: Seq<A>, p: spec_fn(A) -> bool, a: int, b: int)
    requires
        0 <= a < b < s.filter(p).len(),
    ensures
        exists|i: int, j: int|
            0 <= i < j < s.len() && s[i] == s.filter(p)[a] && s[j] == s.filter(p)[b],
    decreases s.len(),
{
    reveal(Seq::filter);
    let d = s.drop_last();
    let f = d.filter(p);
    if b < f.len() {
        lemma_filter_preserves_order(d, p, a, b);
        let (i, j) = choose|i: int, j: int|
            0 <= i < j < d.len() && d[i] == d.filter(p)[a] && d[j] == d.filter(p)[b];
        assert(s[i] == d[i] && s[j] == d[j]);
    } else {
        d.lemma_filter_contains_rev(p, f[a]);
        assert(f.contains(f[a]));
        let i = choose|i: int| 0 <= i < d.len() && d[i] == f[a];
        assert(s[i] == d[i]);
        assert(s[s.len() - 1] == s.filter(p)[b]);
    }
}

} // verus!
