//! Connect and disconnect edges, derived round by round from the peer sets
//! that the transport reports.
use crate::{MeRes, Peer, PeerConnected, PeerDisconnected};
use vstd::prelude::*;

verus! {

/// Rounds that a newly seen peer waits before it is announced as connected.
pub const CONNECT_SETTLE_ROUNDS: u32 = 10;

/// `seen`, then each peer of `input` that is not in it yet, in order, once.
pub open spec fn note_peers(seen: Seq<Peer>, input: Seq<Peer>) -> Seq<Peer>
    decreases input.len(),
{
    if input.len() == 0 {
        seen
    } else {
        let prev = note_peers(seen, input.drop_last());
        if prev.contains(input.last()) {
            prev
        } else {
            prev.push(input.last())
        }
    }
}

/// Noting peers only appends to what was seen.
pub proof fn lemma_note_peers_extends(seen: Seq<Peer>, input: Seq<Peer>)
    ensures
        note_peers(seen, input).len() >= seen.len(),
        note_peers(seen, input).subrange(0, seen.len() as int) == seen,
    decreases input.len(),
{
    if input.len() > 0 {
        lemma_note_peers_extends(seen, input.drop_last());
        let prev = note_peers(seen, input.drop_last());
        if !prev.contains(input.last()) {
            assert(prev.push(input.last()).subrange(0, seen.len() as int) =~= prev.subrange(
                0,
                seen.len() as int,
            ));
        }
    } else {
        assert(seen.subrange(0, seen.len() as int) =~= seen);
    }
}

/// The peers that noting `input` adds to `seen`, in order.
pub open spec fn newly_seen(seen: Seq<Peer>, input: Seq<Peer>) -> Seq<Peer> {
    note_peers(seen, input).subrange(seen.len() as int, note_peers(seen, input).len() as int)
}

/// A pending peer whose wait is over.
pub open spec fn settled_pending() -> spec_fn((Peer, u32)) -> bool {
    |e: (Peer, u32)| e.1 >= CONNECT_SETTLE_ROUNDS
}

/// A pending peer that still waits.
pub open spec fn waiting_pending() -> spec_fn((Peer, u32)) -> bool {
    |e: (Peer, u32)| e.1 < CONNECT_SETTLE_ROUNDS
}

/// The pending peers one round later.
pub open spec fn tick_pending(pending: Seq<(Peer, u32)>) -> Seq<(Peer, u32)> {
    pending.map_values(|e: (Peer, u32)| (e.0, (e.1 + 1) as u32))
}

/// Holds of a peer that is not one of `gone`.
pub open spec fn not_in(gone: Seq<Peer>) -> spec_fn(Peer) -> bool {
    |p: Peer| !gone.contains(p)
}

/// Holds of a pending peer that is not one of `gone`.
pub open spec fn pending_not_in(gone: Seq<Peer>) -> spec_fn((Peer, u32)) -> bool {
    |e: (Peer, u32)| !gone.contains(e.0)
}

/// Removes the peers of `gone` from `list`, keeping the order of the rest.
fn remove_peers(list: &mut Vec<Peer>, gone: &Vec<Peer>)
    ensures
        final(list)@ == old(list)@.filter(not_in(gone@)),
{
    let mut kept: Vec<Peer> = Vec::new();
    let mut k: usize = 0;
    assert(list@.subrange(0, 0).filter(not_in(gone@)) =~= Seq::empty()) by {
        reveal(Seq::filter);
    }
    while k < list.len()
        invariant
            list@ == old(list)@,
            0 <= k <= list@.len(),
            kept@ == list@.subrange(0, k as int).filter(not_in(gone@)),
        decreases list@.len() - k,
    {
        let p = list[k];
        proof {
            assert(list@.subrange(0, k + 1) =~= list@.subrange(0, k as int).push(p));
            list@.subrange(0, k as int).lemma_filter_push(p, not_in(gone@));
        }
        if !contains_peer(gone, p) {
            kept.push(p);
        }
        k = k + 1;
    }
    assert(list@.subrange(0, k as int) =~= list@);
    *list = kept;
}

/// Removes the pending peers of `gone` from `list`, keeping the order of
/// the rest.
fn remove_pending(list: &mut Vec<(Peer, u32)>, gone: &Vec<Peer>)
    ensures
        final(list)@ == old(list)@.filter(pending_not_in(gone@)),
{
    let mut kept: Vec<(Peer, u32)> = Vec::new();
    let mut k: usize = 0;
    assert(list@.subrange(0, 0).filter(pending_not_in(gone@)) =~= Seq::empty()) by {
        reveal(Seq::filter);
    }
    while k < list.len()
        invariant
            list@ == old(list)@,
            0 <= k <= list@.len(),
            kept@ == list@.subrange(0, k as int).filter(pending_not_in(gone@)),
        decreases list@.len() - k,
    {
        let e = list[k];
        proof {
            assert(list@.subrange(0, k + 1) =~= list@.subrange(0, k as int).push(e));
            list@.subrange(0, k as int).lemma_filter_push(e, pending_not_in(gone@));
        }
        if !contains_peer(gone, e.0) {
            kept.push(e);
        }
        k = k + 1;
    }
    assert(list@.subrange(0, k as int) =~= list@);
    *list = kept;
}

/// The bookkeeping behind the connect and disconnect events.
pub struct PeerTracker {
    disconnected: Vec<Peer>,
    connected: Vec<Peer>,
    pending: Vec<(Peer, u32)>,
}

impl PeerTracker {
    /// The peers announced as disconnected, in order.
    pub closed spec fn disconnected_view(&self) -> Seq<Peer> {
        self.disconnected@
    }

    /// The peers seen connected, in order.
    pub closed spec fn connected_view(&self) -> Seq<Peer> {
        self.connected@
    }

    /// The peers seen connected and not yet announced, with the rounds they
    /// have waited.
    pub closed spec fn pending_view(&self) -> Seq<(Peer, u32)> {
        self.pending@
    }

    /// Every pending peer still waits.
    pub open spec fn wf(&self) -> bool {
        forall|i: int|
            0 <= i < self.pending_view().len() ==> (#[trigger] self.pending_view()[i]).1
                < CONNECT_SETTLE_ROUNDS
    }

    /// A tracker that has seen no peer.
    pub fn new() -> (r: Self)
        ensures
            r.wf(),
            r.disconnected_view().len() == 0,
            r.connected_view().len() == 0,
            r.pending_view().len() == 0,
    {
        PeerTracker { disconnected: Vec::new(), connected: Vec::new(), pending: Vec::new() }
    }

    /// Takes the peers that the transport reports disconnected this round
    /// and returns one event for each that was not announced before, in
    /// order. Those peers stop counting as connected, so that a peer that
    /// comes back is announced as connected again.
    pub fn update_disconnected(&mut self, reported: &Vec<Peer>) -> (r: Vec<PeerDisconnected>)
        requires
            old(self).wf(),
        ensures
            final(self).wf(),
            final(self).connected_view() == old(self).connected_view().filter(not_in(reported@)),
            final(self).pending_view() == old(self).pending_view().filter(pending_not_in(reported@)),
            final(self).disconnected_view() == note_peers(old(self).disconnected_view(), reported@),
            r@ == newly_seen(old(self).disconnected_view(), reported@).map_values(
                |p: Peer| PeerDisconnected(p),
            ),
    {
        let mut out: Vec<PeerDisconnected> = Vec::new();
        let ghost seen = old(self).disconnected_view();
        let mut i: usize = 0;
        proof {
            lemma_note_peers_extends(seen, reported@.subrange(0, 0));
            assert(reported@.subrange(0, 0) =~= Seq::<Peer>::empty());
        }
        while i < reported.len()
            invariant
                0 <= i <= reported@.len(),
                seen == old(self).disconnected_view(),
                self.connected@ == old(self).connected@,
                self.pending@ == old(self).pending@,
                self.disconnected@ == note_peers(seen, reported@.subrange(0, i as int)),
                out@ == newly_seen(seen, reported@.subrange(0, i as int)).map_values(
                    |p: Peer| PeerDisconnected(p),
                ),
            decreases reported@.len() - i,
        {
            let p = reported[i];
            let ghost prev = self.disconnected@;
            proof {
                let next = reported@.subrange(0, i + 1);
                assert(next.drop_last() =~= reported@.subrange(0, i as int));
                assert(next.last() == p);
                lemma_note_peers_extends(seen, reported@.subrange(0, i as int));
                lemma_note_peers_extends(seen, next);
            }
            if !contains_peer(&self.disconnected, p) {
                self.disconnected.push(p);
                out.push(PeerDisconnected(p));
                assert(out@ =~= newly_seen(seen, reported@.subrange(0, i + 1)).map_values(
                    |p: Peer| PeerDisconnected(p),
                ));
            }
            i = i + 1;
        }
        assert(reported@.subrange(0, i as int) =~= reported@);
        remove_peers(&mut self.connected, reported);
        remove_pending(&mut self.pending, reported);
        proof {
            let w = old(self).pending_view().filter(pending_not_in(reported@));
            assert forall|k: int| 0 <= k < self.pending_view().len() implies (
            #[trigger] self.pending_view()[k]).1 < CONNECT_SETTLE_ROUNDS by {
                assert(w.contains(w[k]));
                old(self).pending_view().lemma_filter_contains_rev(pending_not_in(reported@), w[k]);
            }
        }
        out
    }

    /// Takes the peers that the transport reports connected this round:
    /// each one not seen before starts to wait; every waiting peer's wait
    /// grows by a round; those that have waited `CONNECT_SETTLE_ROUNDS`
    /// rounds are announced, in the order they were first seen. The
    /// reported peers stop counting as disconnected, so that a later
    /// disconnection is announced again.
    pub fn update_connected(&mut self, reported: &Vec<Peer>) -> (r: Vec<PeerConnected>)
        requires
            old(self).wf(),
        ensures
            final(self).wf(),
            final(self).disconnected_view() == old(self).disconnected_view().filter(
                not_in(reported@),
            ),
            final(self).connected_view() == note_peers(old(self).connected_view(), reported@),
            ({
                let grown = tick_pending(
                    old(self).pending_view() + newly_seen(old(self).connected_view(), reported@).map_values(
                        |p: Peer| (p, 0u32),
                    ),
                );
                &&& final(self).pending_view() == grown.filter(waiting_pending())
                &&& r@ == grown.filter(settled_pending()).map_values(
                    |e: (Peer, u32)| PeerConnected(e.0),
                )
            }),
    {
        let ghost seen = old(self).connected_view();
        let mut i: usize = 0;
        proof {
            lemma_note_peers_extends(seen, reported@.subrange(0, 0));
            assert(reported@.subrange(0, 0) =~= Seq::<Peer>::empty());
            assert(newly_seen(seen, Seq::<Peer>::empty()) =~= Seq::<Peer>::empty());
            assert(old(self).pending_view() =~= old(self).pending_view() + Seq::<Peer>::empty().map_values(
                |p: Peer| (p, 0u32),
            ));
        }
        while i < reported.len()
            invariant
                0 <= i <= reported@.len(),
                seen == old(self).connected_view(),
                self.disconnected@ == old(self).disconnected@,
                self.connected@ == note_peers(seen, reported@.subrange(0, i as int)),
                self.pending@ == old(self).pending_view() + newly_seen(
                    seen,
                    reported@.subrange(0, i as int),
                ).map_values(|p: Peer| (p, 0u32)),
                forall|k: int|
                    0 <= k < self.pending@.len() ==> (#[trigger] self.pending@[k]).1
                        < CONNECT_SETTLE_ROUNDS,
            decreases reported@.len() - i,
        {
            let p = reported[i];
            proof {
                let next = reported@.subrange(0, i + 1);
                assert(next.drop_last() =~= reported@.subrange(0, i as int));
                assert(next.last() == p);
                lemma_note_peers_extends(seen, reported@.subrange(0, i as int));
                lemma_note_peers_extends(seen, next);
            }
            if !contains_peer(&self.connected, p) {
                self.connected.push(p);
                self.pending.push((p, 0u32));
                assert(self.pending@ =~= old(self).pending_view() + newly_seen(
                    seen,
                    reported@.subrange(0, i + 1),
                ).map_values(|p: Peer| (p, 0u32)));
            } else {
                assert(newly_seen(seen, reported@.subrange(0, i + 1)) =~= newly_seen(
                    seen,
                    reported@.subrange(0, i as int),
                ));
            }
            i = i + 1;
        }
        assert(reported@.subrange(0, i as int) =~= reported@);
        let ghost start = self.pending@;
        let ghost grown = tick_pending(start);
        let mut all: Vec<(Peer, u32)> = Vec::new();
        std::mem::swap(&mut all, &mut self.pending);
        let mut out: Vec<PeerConnected> = Vec::new();
        let ghost n: int = start.len() as int;
        let ghost j: int = 0;
        assert(grown.subrange(0, 0).filter(waiting_pending()) =~= Seq::empty()) by {
            reveal(Seq::filter);
        }
        assert(grown.subrange(0, 0).filter(settled_pending()) =~= Seq::empty()) by {
            reveal(Seq::filter);
        }
        while all.len() > 0
            invariant
                0 <= j <= n,
                n == start.len(),
                grown == tick_pending(start),
                forall|k: int| 0 <= k < start.len() ==> (#[trigger] start[k]).1 < CONNECT_SETTLE_ROUNDS,
                all@ == start.subrange(j, n),
                self.disconnected@ == old(self).disconnected@,
                self.connected@ == note_peers(seen, reported@),
                self.pending@ == grown.subrange(0, j).filter(waiting_pending()),
                out@ == grown.subrange(0, j).filter(settled_pending()).map_values(
                    |e: (Peer, u32)| PeerConnected(e.0),
                ),
            decreases all@.len(),
        {
            let e = all.remove(0);
            proof {
                assert(e == start[j]);
                assert(grown[j] == (e.0, (e.1 + 1) as u32));
                assert(grown.subrange(0, j + 1) =~= grown.subrange(0, j).push(grown[j]));
                grown.subrange(0, j).lemma_filter_push(grown[j], waiting_pending());
                grown.subrange(0, j).lemma_filter_push(grown[j], settled_pending());
                assert(all@ =~= start.subrange(j + 1, n));
            }
            let waited = e.1 + 1;
            if waited >= CONNECT_SETTLE_ROUNDS {
                out.push(PeerConnected(e.0));
                assert(out@ =~= grown.subrange(0, j + 1).filter(settled_pending()).map_values(
                    |e: (Peer, u32)| PeerConnected(e.0),
                ));
            } else {
                self.pending.push((e.0, waited));
            }
            proof {
                j = j + 1;
            }
        }
        proof {
            assert(grown.subrange(0, n) =~= grown);
            let w = grown.filter(waiting_pending());
            assert forall|k: int| 0 <= k < w.len() implies (#[trigger] w[k]).1 < CONNECT_SETTLE_ROUNDS by {
                grown.lemma_filter_pred(waiting_pending(), k);
            }
        }
        remove_peers(&mut self.disconnected, reported);
        out
    }
}

/// Whether `p` is one of `peers`.
pub(crate) fn contains_peer(peers: &Vec<Peer>, p: Peer) -> (r: bool)
    ensures
        r == peers@.contains(p),
{
    let mut i: usize = 0;
    while i < peers.len()
        invariant
            0 <= i <= peers@.len(),
            forall|j: int| 0 <= j < i ==> peers@[j] != p,
        decreases peers@.len() - i,
    {
        if peers[i] == p {
            assert(peers@[i as int] == p);
            return true;
        }
        i = i + 1;
    }
    false
}

/// The local peer once the transport has assigned it: a peer resolved
/// already stays; otherwise the transport's id, if it has one.
pub fn resolve_me(current: Option<MeRes>, assigned: Option<Peer>) -> (r: Option<MeRes>)
    ensures
        current is Some ==> r == current,
        current is None ==> r == match assigned {
            Some(p) => Some(MeRes(p)),
            None => None,
        },
{
    match current {
        Some(me) => Some(me),
        None => match assigned {
            Some(p) => Some(MeRes(p)),
            None => None,
        },
    }
}

/// Whether the local peer is resolved.
pub fn connected(me: Option<MeRes>) -> (r: bool)
    ensures
        r == me is Some,
{
    me.is_some()
}

/// True in the first round in which the local peer is resolved, and never
/// again; `fired` remembers that it was.
pub fn just_connected(fired: &mut bool, me: Option<MeRes>) -> (r: bool)
    ensures
        r == (!*old(fired) && me is Some),
        *final(fired) == (*old(fired) || me is Some),
{
    if *fired || me.is_none() {
        return false;
    }
    *fired = true;
    true
}

/// True in the first round in which some peer is announced as connected,
/// and never again; `fired` remembers that it was.
pub fn first_peer_connected(fired: &mut bool, events: &Vec<PeerConnected>) -> (r: bool)
    ensures
        r == (!*old(fired) && events@.len() > 0),
        *final(fired) == (*old(fired) || events@.len() > 0),
{
    if *fired {
        return false;
    }
    if events.len() > 0 {
        *fired = true;
        return true;
    }
    false
}

} // verus!
