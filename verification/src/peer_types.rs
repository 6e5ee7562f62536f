//! What is known about a peer: where it can be reached, how far its address
//! is trusted, and whether it is connected or banned.

use vstd::prelude::*;
use crate::announce::AccountId;
use crate::keys::PeerId;
use crate::vec_map::Keyed;

verus! {

/// How far the pairing of a peer with an address is trusted.
#[derive(Clone, Copy, Debug, PartialEq, Eq, Structural)]
pub enum TrustLevel {
    /// Another peer told of it.
    Indirect,
    /// The node at the address claims to be the peer.
    Direct,
    /// The node at the address proved to have the peer's secret key.
    Signed,
}

impl TrustLevel {
    /// The rank of the level: Indirect below Direct below Signed.
    pub open spec fn rank(self) -> nat {
        match self {
            TrustLevel::Indirect => 0,
            TrustLevel::Direct => 1,
            TrustLevel::Signed => 2,
        }
    }

    /// Whether this level lies below `other`.
    pub fn is_below(&self, other: &TrustLevel) -> (below: bool)
        ensures
            below == (self.rank() < other.rank()),
    {
        match (self, other) {
            (TrustLevel::Indirect, TrustLevel::Direct) => true,
            (TrustLevel::Indirect, TrustLevel::Signed) => true,
            (TrustLevel::Direct, TrustLevel::Signed) => true,
            _ => false,
        }
    }
}

/// The address of a socket: an internet address, of version 4 or 6, as a
/// number, and a port.
#[derive(Clone, Copy, Debug, PartialEq, Eq, Hash, Structural)]
pub struct SocketAddr {
    /// Whether the address is of version 6.
    pub v6: bool,
    /// The address as a number.
    pub ip: u128,
    /// The port.
    pub port: u16,
}

impl View for SocketAddr {
    type V = SocketAddr;

    open spec fn view(&self) -> SocketAddr {
        *self
    }
}

impl Keyed for SocketAddr {
    fn same_key(&self, other: &Self) -> (same: bool) {
        self.v6 == other.v6 && self.ip == other.ip && self.port == other.port
    }
}

/// A peer with its address and account as a value.
pub struct PeerInfoView {
    pub id: Seq<u8>,
    pub addr: Option<SocketAddr>,
    pub account_id: Option<Seq<u8>>,
}

/// A peer, where it can be reached if that is known, and its account if it
/// has one.
#[derive(Debug, PartialEq, Eq)]
pub struct PeerInfo {
    pub id: PeerId,
    pub addr: Option<SocketAddr>,
    pub account_id: Option<AccountId>,
}

impl View for PeerInfo {
    type V = PeerInfoView;

    open spec fn view(&self) -> PeerInfoView {
        PeerInfoView {
            id: self.id@,
            addr: self.addr,
            account_id: match self.account_id {
                Some(account) => Some(account@),
                None => None,
            },
        }
    }
}

impl Clone for PeerInfo {
    fn clone(&self) -> (copy: Self)
        ensures
            copy@ == self@,
    {
        let account_id = match &self.account_id {
            Some(account) => Some(account.clone()),
            None => None,
        };
        PeerInfo { id: self.id.dup(), addr: self.addr, account_id }
    }
}

/// The peers of a list as values.
pub open spec fn peer_info_views(list: Seq<PeerInfo>) -> Seq<PeerInfoView> {
    Seq::new(list.len(), |i: int| list[i]@)
}

/// The answer to a request for peers.
#[derive(Debug)]
pub struct PeerRequestResult {
    pub peers: Vec<PeerInfo>,
}

/// Why a peer is banned.
#[derive(Clone, Copy, Debug, PartialEq, Eq, Structural)]
pub enum ReasonForBan {
    NoReason,
    BadBlock,
    BadBlockHeader,
    HeightFraud,
    BadHandshake,
    BadBlockApproval,
    Abusive,
    InvalidSignature,
    InvalidPeerId,
    InvalidHash,
    InvalidEdge,
    EpochSyncNoResponse,
    EpochSyncInvalidResponse,
    EpochSyncInvalidFinalizationResponse,
    Blacklisted,
}

/// Whether a peer is connected, and if it is banned why and since when.
#[derive(Clone, Copy, Debug, PartialEq, Eq, Structural)]
pub enum KnownPeerStatus {
    Unknown,
    NotConnected,
    Connected,
    Banned(ReasonForBan, u64),
}

impl KnownPeerStatus {
    /// Whether the status is a ban.
    pub fn is_banned(&self) -> (banned: bool)
        ensures
            banned == (*self is Banned),
    {
        match self {
            KnownPeerStatus::Banned(_, _) => true,
            _ => false,
        }
    }
}

/// What is known about a peer, as a value.
pub struct KnownPeerStateView {
    pub peer_info: PeerInfoView,
    pub status: KnownPeerStatus,
    pub first_seen: u64,
    pub last_seen: u64,
}

/// What is known about a peer: the peer, its status, and when it was seen
/// first and last.
#[derive(Debug, PartialEq, Eq)]
pub struct KnownPeerState {
    pub peer_info: PeerInfo,
    pub status: KnownPeerStatus,
    pub first_seen: u64,
    pub last_seen: u64,
}

impl View for KnownPeerState {
    type V = KnownPeerStateView;

    open spec fn view(&self) -> KnownPeerStateView {
        KnownPeerStateView {
            peer_info: self.peer_info@,
            status: self.status,
            first_seen: self.first_seen,
            last_seen: self.last_seen,
        }
    }
}

impl Clone for KnownPeerState {
    fn clone(&self) -> (copy: Self)
        ensures
            copy@ == self@,
    {
        KnownPeerState {
            peer_info: self.peer_info.clone(),
            status: self.status,
            first_seen: self.first_seen,
            last_seen: self.last_seen,
        }
    }
}

/// The state of a peer seen for the first time at `now`.
pub open spec fn new_state(peer_info: PeerInfoView, now: u64) -> KnownPeerStateView {
    KnownPeerStateView { peer_info, status: KnownPeerStatus::Unknown, first_seen: now, last_seen: now }
}

impl KnownPeerState {
    /// The state of a peer seen for the first time at `now`: its status is
    /// not known.
    pub fn new(peer_info: PeerInfo, now: u64) -> (state: KnownPeerState)
        ensures
            state@ == new_state(peer_info@, now),
    {
        KnownPeerState {
            peer_info,
            status: KnownPeerStatus::Unknown,
            first_seen: now,
            last_seen: now,
        }
    }

    /// When the peer was seen first.
    pub fn first_seen(&self) -> (time: u64)
        ensures
            time == self.first_seen,
    {
        self.first_seen
    }

    /// When the peer was seen last.
    pub fn last_seen(&self) -> (time: u64)
        ensures
            time == self.last_seen,
    {
        self.last_seen
    }
}

/// The peer at an address, and how far the pairing is trusted, as a value.
pub struct VerifiedPeerView {
    pub peer_id: Seq<u8>,
    pub trust_level: TrustLevel,
}

/// The peer at an address, and how far the pairing is trusted.
#[derive(Clone, Debug)]
pub struct VerifiedPeer {
    pub peer_id: PeerId,
    pub trust_level: TrustLevel,
}

impl View for VerifiedPeer {
    type V = VerifiedPeerView;

    open spec fn view(&self) -> VerifiedPeerView {
        VerifiedPeerView { peer_id: self.peer_id@, trust_level: self.trust_level }
    }
}

impl VerifiedPeer {
    /// The pairing with `peer_id` that another peer told of.
    pub fn new(peer_id: PeerId) -> (peer: VerifiedPeer)
        ensures
            peer@ == (VerifiedPeerView { peer_id: peer_id@, trust_level: TrustLevel::Indirect }),
    {
        VerifiedPeer { peer_id, trust_level: TrustLevel::Indirect }
    }

    /// The pairing with `peer_id` that the peer proved.
    pub fn signed(peer_id: PeerId) -> (peer: VerifiedPeer)
        ensures
            peer@ == (VerifiedPeerView { peer_id: peer_id@, trust_level: TrustLevel::Signed }),
    {
        VerifiedPeer { peer_id, trust_level: TrustLevel::Signed }
    }
}

} // verus!
