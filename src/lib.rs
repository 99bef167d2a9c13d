//! Peer-to-peer state replication and message routing.
//!
//! The crate holds the logic of a networking layer for real-time multiplayer
//! applications: a time-keyed release queue, a link conditioner that delays
//! and drops packets, a message router over three reliability channels and
//! the ownership arbitration of replicated objects.
use vstd::prelude::*;

pub mod component_sync_layer;
pub mod conditioner;
pub mod message_layer;
pub mod peer_tracking;
pub mod ready_buffer;
pub mod voip_layer;
pub mod wire;

pub use peer_tracking::{connected, first_peer_connected, just_connected};

verus! {

/// A participant of a session, local or remote, identified by a stable id.
#[derive(Copy, Clone, PartialEq, Eq, Structural, PartialOrd, Ord, Hash, Debug)]
pub struct Peer(pub u128);

impl Peer {
    /// The peer with the given raw id.
    pub fn from_u128(id: u128) -> (r: Peer)
        ensures
            r.0 == id,
    {
        Peer(id)
    }

    /// The raw id of this peer.
    pub fn as_u128(&self) -> (r: u128)
        ensures
            r == self.0,
    {
        self.0
    }
}

/// The one peer that is "self" once the transport has assigned it.
#[derive(Copy, Clone, PartialEq, Eq, Structural, PartialOrd, Ord, Hash, Debug)]
pub struct MeRes(pub Peer);

impl MeRes {
    /// The local peer.
    pub fn get(&self) -> (r: Peer)
        ensures
            r == self.0,
    {
        self.0
    }
}

/// Raised once for each peer that leaves the session.
#[derive(Copy, Clone, PartialEq, Eq, Structural, Debug)]
pub struct PeerDisconnected(pub Peer);

impl PeerDisconnected {
    /// The peer that left.
    pub fn get(&self) -> (r: Peer)
        ensures
            r == self.0,
    {
        self.0
    }
}

/// Raised once for each peer that has joined the session and settled.
#[derive(Copy, Clone, PartialEq, Eq, Structural, Debug)]
pub struct PeerConnected(pub Peer);

impl PeerConnected {
    /// The peer that joined.
    pub fn get(&self) -> (r: Peer)
        ensures
            r == self.0,
    {
        self.0
    }
}

/// Index of the reliable transport channel.
pub const RELIABLE: usize = 0;

/// Index of the unreliable, unordered transport channel.
pub const UNRELIABLE: usize = 1;

/// Index of the unreliable but ordered transport channel.
pub const UNRELIABLE_ORDERED: usize = 2;

/// The delivery class of a message type, fixed when the type is registered.
#[derive(Copy, Clone, PartialEq, Eq, Structural, PartialOrd, Ord, Hash, Debug)]
pub enum Reliability {
    Reliable,
    Unreliable,
    UnreliableOrdered,
}

impl Reliability {
    /// The transport channel that carries this class.
    pub open spec fn channel_spec(self) -> usize {
        match self {
            Reliability::Reliable => RELIABLE,
            Reliability::Unreliable => UNRELIABLE,
            Reliability::UnreliableOrdered => UNRELIABLE_ORDERED,
        }
    }

    /// The transport channel that carries this class.
    pub fn channel(&self) -> (r: usize)
        ensures
            r == self.channel_spec(),
    {
        match self {
            Reliability::Reliable => RELIABLE,
            Reliability::Unreliable => UNRELIABLE,
            Reliability::UnreliableOrdered => UNRELIABLE_ORDERED,
        }
    }

    /// The class carried by channel `val`, if there is one.
    pub fn try_new(val: usize) -> (r: Option<Reliability>)
        ensures
            val < 3 <==> r.is_some(),
            r matches Some(c) ==> c.channel_spec() == val,
    {
        if val == RELIABLE {
            Some(Reliability::Reliable)
        } else if val == UNRELIABLE {
            Some(Reliability::Unreliable)
        } else if val == UNRELIABLE_ORDERED {
            Some(Reliability::UnreliableOrdered)
        } else {
            None
        }
    }
}

/// A transport channel as it is opened at connect time.
#[derive(Copy, Clone, PartialEq, Eq, Structural, Debug)]
pub struct ChannelConfig {
    /// Messages arrive in the order they were sent.
    pub ordered: bool,
    /// How often a lost message is sent again; `None` for no bound.
    pub max_retransmits: Option<u16>,
}

/// The channel for a reliability class: reliable is ordered and retransmits
/// without bound; unreliable is unordered and never retransmits; unreliable
/// ordered is ordered and never retransmits.
pub open spec fn channel_config_of(r: Reliability) -> ChannelConfig {
    match r {
        Reliability::Reliable => ChannelConfig { ordered: true, max_retransmits: None },
        Reliability::Unreliable => ChannelConfig { ordered: false, max_retransmits: Some(0) },
        Reliability::UnreliableOrdered => ChannelConfig { ordered: true, max_retransmits: Some(0) },
    }
}

/// What connecting asks of the transport: the signaling address with the
/// room, and the three channels, in the order of their indices.
pub struct ConnectRequest {
    pub room_url: String,
    pub channels: Vec<ChannelConfig>,
}

impl ConnectRequest {
    /// The request to join the room at `room_url`.
    pub fn new(room_url: &str) -> (r: ConnectRequest)
        ensures
            r.room_url@ == room_url@,
            r.channels@ == seq![
                channel_config_of(Reliability::Reliable),
                channel_config_of(Reliability::Unreliable),
                channel_config_of(Reliability::UnreliableOrdered),
            ],
    {
        let mut channels: Vec<ChannelConfig> = Vec::new();
        channels.push(ChannelConfig { ordered: true, max_retransmits: None });
        channels.push(ChannelConfig { ordered: false, max_retransmits: Some(0) });
        channels.push(ChannelConfig { ordered: true, max_retransmits: Some(0) });
        let r = ConnectRequest { room_url: room_url.to_owned(), channels };
        assert(r.channels@ =~= seq![
            channel_config_of(Reliability::Reliable),
            channel_config_of(Reliability::Unreliable),
            channel_config_of(Reliability::UnreliableOrdered),
        ]);
        r
    }
}

/// Starts a session.
pub trait NetworkedCommandExt {
    /// This holds a request to join the room at `room`, with the three
    /// channels in the order Reliable, Unreliable, UnreliableOrdered.
    spec fn connected_to(&self, room: Seq<char>) -> bool;

    /// Asks to join the room at `room`.
    fn connect(&mut self, room: &str)
        ensures
            final(self).connected_to(room@),
    ;
}

impl NetworkedCommandExt for Option<ConnectRequest> {
    open spec fn connected_to(&self, room: Seq<char>) -> bool {
        &&& self matches Some(r)
        &&& r.room_url@ == room
        &&& r.channels@ == seq![
            channel_config_of(Reliability::Reliable),
            channel_config_of(Reliability::Unreliable),
            channel_config_of(Reliability::UnreliableOrdered),
        ]
    }

    fn connect(&mut self, room: &str)
        ensures
            *final(self) matches Some(r) && r.room_url@ == room@ && r.channels@ == seq![
                channel_config_of(Reliability::Reliable),
                channel_config_of(Reliability::Unreliable),
                channel_config_of(Reliability::UnreliableOrdered),
            ],
    {
        *self = Some(ConnectRequest::new(room));
    }
}

} // verus!
