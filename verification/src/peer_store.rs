//! The address book: the peers known, the address of each, and which peer is
//! at which address.

use vstd::prelude::*;
use crate::keys::{peer_views, PeerId};
use crate::peer_types::{
    new_state, peer_info_views, KnownPeerState, KnownPeerStateView, KnownPeerStatus, PeerInfo,
    PeerInfoView, ReasonForBan, SocketAddr, TrustLevel, VerifiedPeer, VerifiedPeerView,
};
use crate::sampling::pick_some;
use crate::vec_map::{lemma_filter_distinct, VecMap};

verus! {

/// The address book as a value: what is known of each peer, and the peer at
/// each address.
pub struct PeerStoreView {
    pub states: Map<Seq<u8>, KnownPeerStateView>,
    pub addrs: Map<SocketAddr, VerifiedPeerView>,
}

/// The peers and the addresses point at each other. Each peer is kept under
/// its own identity; the address of a peer is bound to that peer; and the
/// peer bound to an address is known and has that address.
pub open spec fn index_ok(book: PeerStoreView) -> bool {
    &&& forall|id: Seq<u8>|
        book.states.contains_key(id) ==> (#[trigger] book.states[id]).peer_info.id == id
    &&& forall|id: Seq<u8>|
        book.states.contains_key(id) ==> ((#[trigger] book.states[id]).peer_info.addr matches Some(
            a,
        ) ==> book.addrs.contains_key(a) && book.addrs[a].peer_id == id)
    &&& forall|a: SocketAddr|
        book.addrs.contains_key(a) ==> book.states.contains_key((#[trigger] book.addrs[a]).peer_id)
            && book.states[book.addrs[a].peer_id].peer_info.addr == Some(a)
}

/// The state with the address `addr`, or with none.
pub open spec fn readdressed(state: KnownPeerStateView, addr: Option<SocketAddr>) -> KnownPeerStateView {
    KnownPeerStateView {
        peer_info: PeerInfoView {
            id: state.peer_info.id,
            addr,
            account_id: state.peer_info.account_id,
        },
        status: state.status,
        first_seen: state.first_seen,
        last_seen: state.last_seen,
    }
}

/// Whether a peer is bound to `addr` and known.
pub open spec fn addr_taken(book: PeerStoreView, addr: SocketAddr) -> bool {
    book.addrs.contains_key(addr) && book.states.contains_key(book.addrs[addr].peer_id)
}

/// The book once the peer that was at `addr`, if there was one, has lost the
/// address.
pub open spec fn addr_freed(book: PeerStoreView, addr: SocketAddr) -> PeerStoreView {
    PeerStoreView {
        states: if addr_taken(book, addr) {
            book.states.insert(
                book.addrs[addr].peer_id,
                readdressed(book.states[book.addrs[addr].peer_id], None),
            )
        } else {
            book.states
        },
        addrs: book.addrs.remove(addr),
    }
}

/// The book once `peer_info` is bound to `addr` with the trust `level`. The
/// peer that was at the address loses it; the address that the peer had is
/// bound to nobody; a peer seen for the first time is seen at `now`.
pub open spec fn bound(
    book: PeerStoreView,
    peer_info: PeerInfoView,
    addr: SocketAddr,
    level: TrustLevel,
    now: u64,
) -> PeerStoreView {
    let freed = addr_freed(book, addr);
    let id = peer_info.id;
    let addrs = if freed.states.contains_key(id) && freed.states[id].peer_info.addr is Some {
        freed.addrs.remove(freed.states[id].peer_info.addr.unwrap())
    } else {
        freed.addrs
    };
    PeerStoreView {
        states: if freed.states.contains_key(id) {
            freed.states.insert(id, readdressed(freed.states[id], Some(addr)))
        } else {
            freed.states.insert(id, new_state(peer_info, now))
        },
        addrs: addrs.insert(addr, VerifiedPeerView { peer_id: id, trust_level: level }),
    }
}

/// The peers whose states are to be saved after a binding: the peer bound,
/// and then the peer that lost the address, if one did.
pub open spec fn bound_writes(book: PeerStoreView, peer_info: PeerInfoView, addr: SocketAddr) -> Seq<
    Seq<u8>,
> {
    if addr_taken(book, addr) {
        seq![peer_info.id, book.addrs[addr].peer_id]
    } else {
        seq![peer_info.id]
    }
}

/// Whether the peer has an address that is bound with the trust Signed.
pub open spec fn peer_trusted(book: PeerStoreView, id: Seq<u8>) -> bool {
    &&& book.states.contains_key(id)
    &&& book.states[id].peer_info.addr matches Some(current) && book.addrs.contains_key(current)
        && book.addrs[current].trust_level == TrustLevel::Signed
}

/// Whether a peer heard of with the trust `level` is bound to its address:
/// always where the peer signed; where the node at the address claims to be
/// the peer, unless the peer has a signed address; where another peer told
/// of it, only if neither the peer nor the address is known.
pub open spec fn binds(book: PeerStoreView, peer_info: PeerInfoView, level: TrustLevel) -> bool {
    peer_info.addr matches Some(addr) && match level {
        TrustLevel::Signed => true,
        TrustLevel::Direct => !peer_trusted(book, peer_info.id),
        TrustLevel::Indirect => !book.states.contains_key(peer_info.id) && !book.addrs.contains_key(
            addr,
        ),
    }
}

/// The book once it has heard of `peer_info` with the trust `level`. A peer
/// with an address is bound to it where `binds` says so; a peer without
/// address is noted if it is not known; else nothing changes.
pub open spec fn added(book: PeerStoreView, peer_info: PeerInfoView, level: TrustLevel, now: u64) -> PeerStoreView {
    if binds(book, peer_info, level) {
        bound(book, peer_info, peer_info.addr.unwrap(), level, now)
    } else if peer_info.addr is None && !book.states.contains_key(peer_info.id) {
        PeerStoreView {
            states: book.states.insert(peer_info.id, new_state(peer_info, now)),
            addrs: book.addrs,
        }
    } else {
        book
    }
}

/// The peers whose states are to be saved after the book heard of
/// `peer_info`.
pub open spec fn added_writes(book: PeerStoreView, peer_info: PeerInfoView, level: TrustLevel) -> Seq<
    Seq<u8>,
> {
    if binds(book, peer_info, level) {
        bound_writes(book, peer_info, peer_info.addr.unwrap())
    } else {
        Seq::empty()
    }
}

/// Binding a peer to its address keeps the peers and the addresses pointing
/// at each other.
pub proof fn lemma_bound_keeps_index(
    book: PeerStoreView,
    peer_info: PeerInfoView,
    addr: SocketAddr,
    level: TrustLevel,
    now: u64,
)
    requires
        index_ok(book),
        peer_info.addr == Some(addr),
    ensures
        index_ok(bound(book, peer_info, addr, level, now)),
{
    let freed = addr_freed(book, addr);
    let after = bound(book, peer_info, addr, level, now);
    let id = peer_info.id;
    assert(index_ok(freed)) by {
        assert forall|p: Seq<u8>| freed.states.contains_key(p) implies ((
        #[trigger] freed.states[p]).peer_info.addr matches Some(a) ==> freed.addrs.contains_key(a)
            && freed.addrs[a].peer_id == p) by {
            if book.states.contains_key(p) {
                let s = book.states[p];
            }
        }
        assert forall|a: SocketAddr| freed.addrs.contains_key(a) implies freed.states.contains_key(
            (#[trigger] freed.addrs[a]).peer_id,
        ) && freed.states[freed.addrs[a].peer_id].peer_info.addr == Some(a) by {
            let v = book.addrs[a];
            if addr_taken(book, addr) && v.peer_id == book.addrs[addr].peer_id {
                let s = book.states[v.peer_id];
            }
        }
    }
    assert forall|p: Seq<u8>| after.states.contains_key(p) implies (
    #[trigger] after.states[p]).peer_info.id == p by {
        if p != id {
            let s = freed.states[p];
        }
    }
    assert forall|p: Seq<u8>| after.states.contains_key(p) implies ((
    #[trigger] after.states[p]).peer_info.addr matches Some(a) ==> after.addrs.contains_key(a)
        && after.addrs[a].peer_id == p) by {
        if p != id {
            let s = freed.states[p];
            if s.peer_info.addr is Some {
                let a = s.peer_info.addr.unwrap();
                assert(freed.addrs.contains_key(a) && freed.addrs[a].peer_id == p);
                if freed.states.contains_key(id) && freed.states[id].peer_info.addr == Some(a) {
                    let mine = freed.states[id];
                }
            }
        }
    }
    assert forall|a: SocketAddr| after.addrs.contains_key(a) implies after.states.contains_key(
        (#[trigger] after.addrs[a]).peer_id,
    ) && after.states[after.addrs[a].peer_id].peer_info.addr == Some(a) by {
        if a != addr {
            let v = freed.addrs[a];
            assert(freed.states.contains_key(v.peer_id));
            if v.peer_id == id {
                let s = freed.states[id];
            }
        }
    }
}

/// What binding a peer to its address does. The address is bound to the
/// peer with the trust given, and the peer has the address; a peer known
/// before keeps all else, a new one is seen at `now`. Another peer that was
/// at the address is still known, without address. The address that the
/// peer had before is bound to nobody. Every other peer and every other
/// address is as it was.
pub proof fn lemma_bound_effects(
    book: PeerStoreView,
    peer_info: PeerInfoView,
    addr: SocketAddr,
    level: TrustLevel,
    now: u64,
)
    requires
        index_ok(book),
        peer_info.addr == Some(addr),
    ensures
        ({
            let after = bound(book, peer_info, addr, level, now);
            let id = peer_info.id;
            &&& index_ok(after)
            &&& after.addrs.contains_key(addr)
            &&& after.addrs[addr] == (VerifiedPeerView { peer_id: id, trust_level: level })
            &&& after.states.contains_key(id)
            &&& after.states[id] == if book.states.contains_key(id) {
                readdressed(book.states[id], Some(addr))
            } else {
                new_state(peer_info, now)
            }
            &&& after.states[id].peer_info.addr == Some(addr)
            &&& forall|other: Seq<u8>|
                book.addrs.contains_key(addr) && book.addrs[addr].peer_id == other && other != id
                    ==> #[trigger] after.states.contains_key(other) && after.states[other]
                    == readdressed(book.states[other], None)
            &&& forall|former: SocketAddr|
                book.states.contains_key(id) && book.states[id].peer_info.addr == Some(former)
                    && former != addr ==> !#[trigger] after.addrs.contains_key(former)
            &&& forall|other: Seq<u8>|
                other != id && !(book.addrs.contains_key(addr) && book.addrs[addr].peer_id == other)
                    ==> #[trigger] after.states.contains_key(other) == book.states.contains_key(
                    other,
                ) && (book.states.contains_key(other) ==> after.states[other] == book.states[other])
            &&& forall|other: SocketAddr|
                other != addr && !(book.states.contains_key(id) && book.states[id].peer_info.addr
                    == Some(other)) ==> #[trigger] after.addrs.contains_key(other)
                    == book.addrs.contains_key(other) && (book.addrs.contains_key(other)
                    ==> after.addrs[other] == book.addrs[other])
        }),
{
    lemma_bound_keeps_index(book, peer_info, addr, level, now);
    let after = bound(book, peer_info, addr, level, now);
    let freed = addr_freed(book, addr);
    let id = peer_info.id;
    if book.addrs.contains_key(addr) {
        let holder = book.addrs[addr].peer_id;
        assert(book.states.contains_key(holder));
        assert(book.states[holder].peer_info.addr == Some(addr));
    }
    if book.states.contains_key(id) {
        let mine = book.states[id];
        assert(mine.peer_info.id == id);
    }
}

/// Hearing of a peer keeps the peers and the addresses pointing at each
/// other.
pub proof fn lemma_added_keeps_index(
    book: PeerStoreView,
    peer_info: PeerInfoView,
    level: TrustLevel,
    now: u64,
)
    requires
        index_ok(book),
    ensures
        index_ok(added(book, peer_info, level, now)),
{
    if binds(book, peer_info, level) {
        lemma_bound_keeps_index(book, peer_info, peer_info.addr.unwrap(), level, now);
    } else if peer_info.addr is None && !book.states.contains_key(peer_info.id) {
        let after = added(book, peer_info, level, now);
        assert forall|p: Seq<u8>| after.states.contains_key(p) implies ((
        #[trigger] after.states[p]).peer_info.addr matches Some(a) ==> after.addrs.contains_key(a)
            && after.addrs[a].peer_id == p) by {
            if p != peer_info.id {
                let s = book.states[p];
            }
        }
        assert forall|a: SocketAddr| after.addrs.contains_key(a) implies after.states.contains_key(
            (#[trigger] after.addrs[a]).peer_id,
        ) && after.states[after.addrs[a].peer_id].peer_info.addr == Some(a) by {
            let v = book.addrs[a];
        }
    }
}


/// The state of a peer that is to be saved.
#[derive(Clone, Debug, PartialEq, Eq)]
pub struct PeerWrite {
    pub peer_id: PeerId,
    pub state: KnownPeerState,
}

/// Each of the `writes` is for the peer that `ids` names at its place, and
/// holds the state of that peer in `book`.
pub open spec fn writes_match(writes: Seq<PeerWrite>, ids: Seq<Seq<u8>>, book: PeerStoreView) -> bool {
    &&& writes.len() == ids.len()
    &&& forall|i: int|
        0 <= i < writes.len() ==> (#[trigger] writes[i]).peer_id@ == ids[i] && book.states.contains_key(
            ids[i],
        ) && writes[i].state@ == book.states[ids[i]]
}

/// Why the address book turned a request down.
#[derive(Clone, Copy, Debug, PartialEq, Eq, Structural)]
pub enum PeerStoreError {
    /// The peer is not in the book.
    PeerMissing,
    /// A peer was seen last after the time given as now.
    SeenInFuture,
}

/// The address book.
pub struct PeerStore {
    peer_states: VecMap<PeerId, KnownPeerState>,
    addr_peers: VecMap<SocketAddr, VerifiedPeer>,
}

impl View for PeerStore {
    type V = PeerStoreView;

    closed spec fn view(&self) -> PeerStoreView {
        PeerStoreView {
            states: Map::new(
                |id: Seq<u8>| self.peer_states.has(id),
                |id: Seq<u8>| self.peer_states.value(id)@,
            ),
            addrs: Map::new(
                |a: SocketAddr| self.addr_peers.has(a),
                |a: SocketAddr| self.addr_peers.value(a)@,
            ),
        }
    }
}

impl PeerStore {
    /// The book keeps no peer and no address twice.
    pub closed spec fn wf(&self) -> bool {
        self.peer_states.wf() && self.addr_peers.wf()
    }

    /// The peers of the book, in the order in which they came into it.
    pub closed spec fn peer_order(&self) -> Seq<Seq<u8>> {
        self.peer_states.keys()
    }

    /// In a book that is well formed every peer is once in the order of the
    /// peers, and no other.
    pub proof fn lemma_peer_order(&self)
        requires
            self.wf(),
        ensures
            self.peer_order().no_duplicates(),
            forall|id: Seq<u8>| self.peer_order().contains(id) == self@.states.contains_key(id),
    {
        self.peer_states.lemma_entries();
    }

    /// The book without peers.
    pub fn empty() -> (store: PeerStore)
        ensures
            store.wf(),
            store@.states == Map::<Seq<u8>, KnownPeerStateView>::empty(),
            store@.addrs == Map::<SocketAddr, VerifiedPeerView>::empty(),
    {
        let store = PeerStore { peer_states: VecMap::new(), addr_peers: VecMap::new() };
        assert(store@.states =~= Map::<Seq<u8>, KnownPeerStateView>::empty());
        assert(store@.addrs =~= Map::<SocketAddr, VerifiedPeerView>::empty());
        store
    }

    /// The number of peers in the book.
    pub fn len(&self) -> (n: usize)
        ensures
            self.wf(),
            n == self.peer_order().len(),
            self.peer_order().no_duplicates(),
            forall|id: Seq<u8>| self.peer_order().contains(id) == self@.states.contains_key(id),
    {
        proof {
            use_type_invariant(&self.peer_states);
            use_type_invariant(&self.addr_peers);
        }
        proof {
            use_type_invariant(&self.peer_states);
            self.peer_states.lemma_entries();
        }
        self.peer_states.len()
    }

    /// Whether the peer is in the book as banned.
    pub fn is_banned(&self, peer_id: &PeerId) -> (banned: bool)
        ensures
            self.wf(),
            banned == (self@.states.contains_key(peer_id@) && self@.states[peer_id@].status is Banned),
    {
        proof {
            use_type_invariant(&self.peer_states);
            use_type_invariant(&self.addr_peers);
        }
        match self.peer_states.get(peer_id) {
            Some(state) => state.status.is_banned(),
            None => false,
        }
    }

    /// What the book knows of the peer.
    pub fn peer_state(&self, peer_id: &PeerId) -> (state: Option<&KnownPeerState>)
        ensures
            self.wf(),
            state.is_some() == self@.states.contains_key(peer_id@),
            state matches Some(s) ==> s@ == self@.states[peer_id@],
    {
        proof {
            use_type_invariant(&self.peer_states);
            use_type_invariant(&self.addr_peers);
        }
        self.peer_states.get(peer_id)
    }

    /// The peer bound to the address, and how far the binding is trusted.
    pub fn peer_at(&self, addr: &SocketAddr) -> (peer: Option<&VerifiedPeer>)
        ensures
            self.wf(),
            peer.is_some() == self@.addrs.contains_key(*addr),
            peer matches Some(p) ==> p@ == self@.addrs[*addr],
    {
        proof {
            use_type_invariant(&self.peer_states);
            use_type_invariant(&self.addr_peers);
        }
        self.addr_peers.get(addr)
    }

    /// The state of the peer, to be saved.
    fn touch(&self, peer_id: &PeerId) -> (write: Option<PeerWrite>)
        ensures
            write.is_some() == self@.states.contains_key(peer_id@),
            write matches Some(w) ==> w.peer_id@ == peer_id@ && w.state@ == self@.states[peer_id@],
    {
        match self.peer_states.get(peer_id) {
            Some(state) => Some(PeerWrite { peer_id: peer_id.dup(), state: state.clone() }),
            None => None,
        }
    }

    /// Binds `peer_info` to `peer_addr` with the trust `trust_level`, taking
    /// the address from the peer that had it and freeing the address that
    /// this peer had. Returns the states to be saved.
    fn update_peer_info(
        &mut self,
        peer_info: PeerInfo,
        peer_addr: SocketAddr,
        trust_level: TrustLevel,
        now: u64,
    ) -> (writes: Vec<PeerWrite>)
        ensures
            final(self).wf(),
            final(self)@ == bound(old(self)@, peer_info@, peer_addr, trust_level, now),
            writes_match(writes@, bound_writes(old(self)@, peer_info@, peer_addr), final(self)@),
    {
        proof {
            use_type_invariant(&self.peer_states);
            use_type_invariant(&self.addr_peers);
        }
        let ghost before = self@;
        let mut touch_other: Option<PeerId> = None;
        match self.addr_peers.remove(&peer_addr) {
            Some(verified_peer) => {
                let changed = match self.peer_states.get(&verified_peer.peer_id) {
                    Some(state) => {
                        let mut other = state.clone();
                        other.peer_info.addr = None;
                        Some(other)
                    },
                    None => None,
                };
                match changed {
                    Some(other) => {
                        self.peer_states.insert(verified_peer.peer_id.dup(), other);
                        touch_other = Some(verified_peer.peer_id);
                    },
                    None => {},
                }
            },
            None => {},
        }
        proof {
            assert(self@.states =~= addr_freed(before, peer_addr).states);
            assert(self@.addrs =~= addr_freed(before, peer_addr).addrs);
        }
        let ghost freed = self@;
        let current: Option<SocketAddr> = match self.peer_states.get(&peer_info.id) {
            Some(state) => state.peer_info.addr,
            None => None,
        };
        match current {
            Some(cur_addr) => {
                self.addr_peers.remove(&cur_addr);
            },
            None => {},
        }
        self.addr_peers.insert(
            peer_addr,
            VerifiedPeer { peer_id: peer_info.id.dup(), trust_level },
        );
        let updated = match self.peer_states.get(&peer_info.id) {
            Some(state) => {
                let mut mine = state.clone();
                mine.peer_info.addr = Some(peer_addr);
                mine
            },
            None => KnownPeerState::new(peer_info.clone(), now),
        };
        self.peer_states.insert(peer_info.id.dup(), updated);
        proof {
            let after = bound(before, peer_info@, peer_addr, trust_level, now);
            assert(self@.states =~= after.states);
            assert(self@.addrs =~= after.addrs);
        }
        let mut writes: Vec<PeerWrite> = Vec::new();
        match self.touch(&peer_info.id) {
            Some(write) => {
                writes.push(write);
            },
            None => {},
        }
        match touch_other {
            Some(other) => match self.touch(&other) {
                Some(write) => {
                    writes.push(write);
                },
                None => {},
            },
            None => {},
        }
        writes
    }

    /// Hears of `peer_info` with the trust `trust_level`. Returns the states
    /// to be saved.
    pub fn add_peer(&mut self, peer_info: PeerInfo, trust_level: TrustLevel, now: u64) -> (writes: Vec<
        PeerWrite,
    >)
        ensures
            final(self).wf(),
            final(self)@ == added(old(self)@, peer_info@, trust_level, now),
            writes_match(writes@, added_writes(old(self)@, peer_info@, trust_level), final(self)@),
            index_ok(old(self)@) ==> index_ok(final(self)@),
    {
        proof {
            use_type_invariant(&self.peer_states);
            use_type_invariant(&self.addr_peers);
        }
        proof {
            if index_ok(self@) {
                lemma_added_keeps_index(self@, peer_info@, trust_level, now);
            }
        }
        match peer_info.addr {
            Some(peer_addr) => {
                match trust_level {
                    TrustLevel::Signed => self.update_peer_info(
                        peer_info,
                        peer_addr,
                        TrustLevel::Signed,
                        now,
                    ),
                    TrustLevel::Direct => {
                        let is_peer_trusted = match self.peer_states.get(&peer_info.id) {
                            Some(peer_state) => match peer_state.peer_info.addr {
                                Some(current_addr) => match self.addr_peers.get(&current_addr) {
                                    Some(verified_peer) => verified_peer.trust_level
                                        == TrustLevel::Signed,
                                    None => false,
                                },
                                None => false,
                            },
                            None => false,
                        };
                        if is_peer_trusted {
                            return Vec::new();
                        }
                        self.update_peer_info(peer_info, peer_addr, TrustLevel::Direct, now)
                    },
                    TrustLevel::Indirect => {
                        if !self.peer_states.contains_key(&peer_info.id)
                            && !self.addr_peers.contains_key(&peer_addr) {
                            self.update_peer_info(peer_info, peer_addr, TrustLevel::Indirect, now)
                        } else {
                            Vec::new()
                        }
                    },
                }
            },
            None => {
                let ghost before = self@;
                if !self.peer_states.contains_key(&peer_info.id) {
                    let ghost info = peer_info@;
                    let id = peer_info.id.dup();
                    self.peer_states.insert(id, KnownPeerState::new(peer_info, now));
                    proof {
                        assert(self@.states =~= before.states.insert(info.id, new_state(info, now)));
                        assert(self@.addrs =~= before.addrs);
                    }
                }
                Vec::new()
            },
        }
    }

    /// Hears of peers that other peers told of. Returns the states to be
    /// saved.
    pub fn add_indirect_peers(&mut self, peers: Vec<PeerInfo>, now: u64) -> (writes: Vec<PeerWrite>)
        ensures
            final(self).wf(),
            final(self)@ == added_all(old(self)@, peer_info_views(peers@), now),
            writes_match(
                writes@,
                added_all_writes(old(self)@, peer_info_views(peers@), now),
                final(self)@,
            ),
            index_ok(old(self)@) ==> index_ok(final(self)@),
    {
        proof {
            use_type_invariant(&self.peer_states);
            use_type_invariant(&self.addr_peers);
        }
        let ghost views = peer_info_views(peers@);
        let mut writes: Vec<PeerWrite> = Vec::new();
        let mut i: usize = 0;
        proof {
            assert(views.take(0) =~= Seq::<PeerInfoView>::empty());
        }
        while i < peers.len()
            invariant
                i <= peers@.len(),
                views == peer_info_views(peers@),
                self.wf(),
                self@ == added_all(old(self)@, views.take(i as int), now),
                writes_match(
                    writes@,
                    added_all_writes(old(self)@, views.take(i as int), now),
                    self@,
                ),
                index_ok(old(self)@) ==> index_ok(self@),
            decreases peers@.len() - i,
        {
            let ghost here = self@;
            let ghost so_far = writes@;
            let mut more = self.add_peer(peers[i].clone(), TrustLevel::Indirect, now);
            let ghost added_now = more@;
            writes.append(&mut more);
            proof {
                assert(views.take(i + 1).drop_last() =~= views.take(i as int));
                assert(views.take(i + 1).last() == peers@[i as int]@);
                let ids = added_all_writes(old(self)@, views.take(i as int), now);
                let new_ids = added_writes(here, peers@[i as int]@, TrustLevel::Indirect);
                assert(writes@ =~= so_far + added_now);
                assert forall|k: int| 0 <= k < writes@.len() implies (#[trigger] writes@[k]).peer_id@
                    == (ids + new_ids)[k] && self@.states.contains_key((ids + new_ids)[k])
                    && writes@[k].state@ == self@.states[(ids + new_ids)[k]] by {
                    if k < so_far.len() {
                        assert(writes@[k] == so_far[k]);
                        assert(here.states.contains_key(ids[k]));
                    } else {
                        assert(writes@[k] == added_now[k - so_far.len()]);
                    }
                }
            }
            i += 1;
        }
        proof {
            assert(views.take(i as int) =~= views);
        }
        writes
    }

    /// Hears of `peer_info` with the trust `trust_level`. Returns the states
    /// to be saved.
    pub fn add_trusted_peer(&mut self, peer_info: PeerInfo, trust_level: TrustLevel, now: u64) -> (writes:
        Vec<PeerWrite>)
        ensures
            final(self).wf(),
            final(self)@ == added(old(self)@, peer_info@, trust_level, now),
            writes_match(writes@, added_writes(old(self)@, peer_info@, trust_level), final(self)@),
            index_ok(old(self)@) ==> index_ok(final(self)@),
    {
        proof {
            use_type_invariant(&self.peer_states);
            use_type_invariant(&self.addr_peers);
        }
        self.add_peer(peer_info, trust_level, now)
    }

    /// Puts `state` in the place of what the book knows of the peer.
    fn set_state(&mut self, peer_id: &PeerId, state: KnownPeerState)
        requires
            old(self)@.states.contains_key(peer_id@),
        ensures
            final(self).wf(),
            final(self)@.states == old(self)@.states.insert(peer_id@, state@),
            final(self)@.addrs == old(self)@.addrs,
            final(self).peer_order() == old(self).peer_order(),
    {
        proof {
            use_type_invariant(&self.peer_states);
            use_type_invariant(&self.addr_peers);
        }
        let ghost before = self@;
        let ghost order = self.peer_states.keys();
        proof {
            use_type_invariant(&self.peer_states);
            self.peer_states.lemma_entries();
        }
        self.peer_states.insert(peer_id.dup(), state);
        proof {
            assert(self@.states =~= before.states.insert(peer_id@, state@));
            assert(self@.addrs =~= before.addrs);
            assert(self.peer_states.keys() =~= order);
        }
    }

    /// Notes that the peer is connected: it is heard of with the trust
    /// Signed, and then it is connected and seen at `now`. Returns the states
    /// to be saved.
    pub fn peer_connected(&mut self, peer_info: &PeerInfo, now: u64) -> (writes: Vec<PeerWrite>)
        ensures
            final(self).wf(),
            final(self)@ == marked(
                added(old(self)@, peer_info@, TrustLevel::Signed, now),
                peer_info@.id,
                KnownPeerStatus::Connected,
                Some(now),
            ),
            final(self)@.states.contains_key(peer_info@.id),
            writes@.len() > 0,
            writes_match(
                writes@.drop_last(),
                added_writes(old(self)@, peer_info@, TrustLevel::Signed),
                added(old(self)@, peer_info@, TrustLevel::Signed, now),
            ),
            writes@.last().peer_id@ == peer_info@.id,
            writes@.last().state@ == final(self)@.states[peer_info@.id],
            index_ok(old(self)@) ==> index_ok(final(self)@),
    {
        proof {
            use_type_invariant(&self.peer_states);
            use_type_invariant(&self.addr_peers);
        }
        let mut writes = self.add_trusted_peer(peer_info.clone(), TrustLevel::Signed, now);
        let ghost mid = self@;
        let ghost first = writes@;
        proof {
            if index_ok(mid) {
                lemma_marked_keeps_index(mid, peer_info@.id, KnownPeerStatus::Connected, Some(now));
            }
        }
        let entry = match self.peer_states.get(&peer_info.id) {
            Some(state) => {
                let mut entry = state.clone();
                entry.last_seen = now;
                entry.status = KnownPeerStatus::Connected;
                Some(entry)
            },
            None => None,
        };
        match entry {
            Some(entry) => {
                writes.push(PeerWrite { peer_id: peer_info.id.dup(), state: entry.clone() });
                self.set_state(&peer_info.id, entry);
            },
            None => {
                assert(false);
            },
        }
        assert(writes@.drop_last() =~= first);
        writes
    }

    /// The book made of the boot nodes and of the peers that were saved.
    /// Each boot node with an address, whose identity and address no boot
    /// node before it had, comes in with the trust Signed, seen at `now`.
    /// Then each saved peer comes in, seen last at `now` and not connected,
    /// unless it was banned: a ban is kept, and is passed on to a boot node
    /// of the same identity. A saved peer without address, or with the
    /// address of a peer already in the book, is left out.
    pub fn new(boot_nodes: &Vec<PeerInfo>, saved: &Vec<(PeerId, KnownPeerState)>, now: u64) -> (store:
        PeerStore)
        ensures
            store.wf(),
            store@ == loaded(
                booted(empty_book(), peer_info_views(boot_nodes@), now),
                saved_views(saved@),
                now,
            ),
            rows_consistent(saved_views(saved@)) ==> index_ok(store@),
    {
        let mut store = PeerStore::empty();
        let ghost boots = peer_info_views(boot_nodes@);
        let ghost rows = saved_views(saved@);
        proof {
            assert(boots.take(0) =~= Seq::<PeerInfoView>::empty());
            assert(store@ == empty_book());
        }
        let mut i: usize = 0;
        while i < boot_nodes.len()
            invariant
                i <= boot_nodes@.len(),
                boots == peer_info_views(boot_nodes@),
                store.wf(),
                store@ == booted(empty_book(), boots.take(i as int), now),
                index_ok(store@),
            decreases boot_nodes@.len() - i,
        {
            let peer_info = &boot_nodes[i];
            let ghost before = store@;
            proof {
                assert(boots.take(i + 1).drop_last() =~= boots.take(i as int));
                assert(boots.take(i + 1).last() == peer_info@);
                lemma_boot_keeps_index(before, peer_info@, now);
            }
            if !store.peer_states.contains_key(&peer_info.id) {
                match peer_info.addr {
                    Some(peer_addr) => {
                        if !store.addr_peers.contains_key(&peer_addr) {
                            store.addr_peers.insert(
                                peer_addr,
                                VerifiedPeer::signed(peer_info.id.dup()),
                            );
                            store.peer_states.insert(
                                peer_info.id.dup(),
                                KnownPeerState::new(peer_info.clone(), now),
                            );
                            proof {
                                let after = boot_added(before, peer_info@, now);
                                assert(store@.states =~= after.states);
                                assert(store@.addrs =~= after.addrs);
                            }
                        }
                    },
                    None => {},
                }
            }
            i += 1;
        }
        proof {
            assert(boots.take(i as int) =~= boots);
            assert(rows.take(0) =~= Seq::<(Seq<u8>, KnownPeerStateView)>::empty());
        }
        let ghost base = store@;
        let mut k: usize = 0;
        while k < saved.len()
            invariant
                k <= saved@.len(),
                rows == saved_views(saved@),
                store.wf(),
                store@ == loaded(base, rows.take(k as int), now),
                rows_consistent(rows) ==> index_ok(store@),
            decreases saved@.len() - k,
        {
            let peer_id = &saved[k].0;
            let row = &saved[k].1;
            let ghost before = store@;
            proof {
                assert(rows.take(k + 1).drop_last() =~= rows.take(k as int));
                assert(rows.take(k + 1).last() == (peer_id@, row@));
                if rows_consistent(rows) {
                    assert(rows[k as int] == (peer_id@, row@));
                    lemma_row_keeps_index(before, peer_id@, row@, now);
                }
            }
            let status = if row.status.is_banned() {
                row.status
            } else {
                KnownPeerStatus::NotConnected
            };
            let current = match store.peer_states.get(peer_id) {
                Some(state) => Some(state.clone()),
                None => None,
            };
            match current {
                Some(state) => {
                    if status.is_banned() {
                        let mut banned = state;
                        banned.status = status;
                        store.peer_states.insert(peer_id.dup(), banned);
                        proof {
                            let after = row_loaded(before, peer_id@, row@, now);
                            assert(store@.states =~= after.states);
                            assert(store@.addrs =~= after.addrs);
                        }
                    }
                },
                None => {
                    match row.peer_info.addr {
                        Some(peer_addr) => {
                            if !store.addr_peers.contains_key(&peer_addr) {
                                store.addr_peers.insert(
                                    peer_addr,
                                    VerifiedPeer::new(row.peer_info.id.dup()),
                                );
                                store.peer_states.insert(
                                    peer_id.dup(),
                                    KnownPeerState {
                                        peer_info: row.peer_info.clone(),
                                        status,
                                        first_seen: row.first_seen,
                                        last_seen: now,
                                    },
                                );
                                proof {
                                    let after = row_loaded(before, peer_id@, row@, now);
                                    assert(store@.states =~= after.states);
                                    assert(store@.addrs =~= after.addrs);
                                }
                            }
                        },
                        None => {},
                    }
                },
            }
            k += 1;
        }
        proof {
            assert(rows.take(k as int) =~= rows);
        }
        store
    }

    /// What the book knows of the peer, as it is kept.
    pub closed spec fn kept(&self, id: Seq<u8>) -> KnownPeerState {
        self.peer_states.value(id)
    }

    /// What is kept of a peer is what the book knows of it.
    pub proof fn lemma_kept(&self, id: Seq<u8>)
        requires
            self@.states.contains_key(id),
        ensures
            self.kept(id)@ == self@.states[id],
            self.peer_order().contains(id),
    {
    }

    /// A peer to connect to, chosen at random: one that is not connected or
    /// of unknown status, has an address and is not to be ignored. There is
    /// none only where every such peer is to be ignored.
    pub fn unconnected_peer<F: Fn(&KnownPeerState) -> bool>(&self, ignore_fn: F) -> (peer: Option<
        PeerInfo,
    >)
        requires
            forall|state: &KnownPeerState| call_requires(ignore_fn, (state,)),
        ensures
            self.wf(),
            peer matches Some(info) ==> exists|id: Seq<u8>|
                {
                    &&& #[trigger] self@.states.contains_key(id)
                    &&& can_connect(self@.states[id])
                    &&& call_ensures(ignore_fn, (&self.kept(id),), false)
                    &&& info@ == self@.states[id].peer_info
                },
            peer is None ==> forall|id: Seq<u8>|
                #[trigger] self@.states.contains_key(id) && can_connect(self@.states[id])
                    ==> call_ensures(ignore_fn, (&self.kept(id),), true),
    {
        proof {
            use_type_invariant(&self.peer_states);
            use_type_invariant(&self.addr_peers);
        }
        proof {
            use_type_invariant(&self.peer_states);
            self.peer_states.lemma_entries();
        }
        let mut candidates: Vec<usize> = Vec::new();
        let mut i: usize = 0;
        while i < self.peer_states.len()
            invariant
                i <= self.peer_states.entries().len(),
                forall|c: int|
                    0 <= c < candidates@.len() ==> {
                        &&& (#[trigger] candidates@[c]) < i
                        &&& can_connect(self.peer_states.entries()[candidates@[c] as int].1@)
                        &&& call_ensures(
                            ignore_fn,
                            (&self.peer_states.entries()[candidates@[c] as int].1,),
                            false,
                        )
                    },
                forall|j: int|
                    0 <= j < i && can_connect((#[trigger] self.peer_states.entries()[j]).1@)
                        ==> candidates@.contains(j as usize) || call_ensures(
                        ignore_fn,
                        (&self.peer_states.entries()[j].1,),
                        true,
                    ),
                forall|state: &KnownPeerState| call_requires(ignore_fn, (state,)),
            decreases self.peer_states.entries().len() - i,
        {
            let state = self.peer_states.value_at(i);
            let open = match state.status {
                KnownPeerStatus::NotConnected => true,
                KnownPeerStatus::Unknown => true,
                _ => false,
            };
            if open && !ignore_fn(state) && state.peer_info.addr.is_some() {
                let ghost before = candidates@;
                candidates.push(i);
                proof {
                    assert forall|j: int|
                        0 <= j < i + 1 && can_connect((#[trigger] self.peer_states.entries()[j]).1@)
                        implies candidates@.contains(j as usize) || call_ensures(
                        ignore_fn,
                        (&self.peer_states.entries()[j].1,),
                        true,
                    ) by {
                        if j < i {
                            if before.contains(j as usize) {
                                let c = before.index_of(j as usize);
                                assert(candidates@[c] == j as usize);
                            }
                        } else {
                            assert(candidates@[before.len() as int] == i);
                        }
                    }
                }
            }
            i += 1;
        }
        if candidates.len() == 0 {
            proof {
                assert forall|id: Seq<u8>| #[trigger]
                    self@.states.contains_key(id) && can_connect(self@.states[id]) implies call_ensures(
                    ignore_fn,
                    (&self.kept(id),),
                    true,
                ) by {
                    let j = self.peer_states.index_of(id);
                    assert(self.peer_states.entries()[j].0@ == id);
                    assert(!candidates@.contains(j as usize));
                }
            }
            return None;
        }
        let picked = pick_some(&candidates, 1);
        let at = picked[0];
        proof {
            let places = choose|places: Seq<int>|
                {
                    &&& places.len() == picked@.len()
                    &&& places.no_duplicates()
                    &&& forall|k: int|
                        0 <= k < places.len() ==> 0 <= #[trigger] places[k] < candidates@.len()
                            && picked@[k] == candidates@[places[k]]
                };
            assert(picked@[0] == candidates@[places[0]]);
            let id = self.peer_states.entries()[at as int].0@;
            assert(self.peer_states.has(id));
            assert(self@.states.contains_key(id));
        }
        Some(self.peer_states.value_at(at).peer_info.clone())
    }

    /// The peers that are not banned, in the order in which they came into
    /// the book.
    pub closed spec fn healthy(&self) -> Seq<Seq<u8>> {
        self.peer_states.keys().filter(|id: Seq<u8>| !(self.peer_states.value(id).status is Banned))
    }

    /// Each peer that is not banned is once in `healthy`, and no other.
    pub proof fn lemma_healthy(&self)
        requires
            self.wf(),
        ensures
            self.healthy().no_duplicates(),
            forall|id: Seq<u8>|
                #[trigger] self.healthy().contains(id) ==> self@.states.contains_key(id) && !(
                self@.states[id].status is Banned),
            forall|id: Seq<u8>|
                #[trigger] self@.states.contains_key(id) && !(self@.states[id].status is Banned)
                    ==> self.healthy().contains(id),
    {
        let keys = self.peer_states.keys();
        let test = |id: Seq<u8>| !(self.peer_states.value(id).status is Banned);
        assert(self.healthy() == keys.filter(test));
        self.peer_states.lemma_entries();
        lemma_filter_distinct(keys, test);
        assert forall|id: Seq<u8>| #[trigger]
            self.healthy().contains(id) implies self@.states.contains_key(id) && !(
        self@.states[id].status is Banned) by {
            keys.lemma_filter_contains_rev(test, id);
            assert(test(id));
        }
        assert forall|id: Seq<u8>|
            #[trigger] self@.states.contains_key(id) && !(self@.states[id].status is Banned)
            implies self.healthy().contains(id) by {
            let j = keys.index_of(id);
            assert(keys[j] == id);
            assert(test(keys[j]));
            keys.lemma_filter_contains(test, j);
        }
    }

    /// Up to `max_count` peers that are not banned, chosen at random: as
    /// many as asked for, or all of them where they are fewer, no peer
    /// twice.
    pub fn healthy_peers(&self, max_count: usize) -> (peers: Vec<PeerInfo>)
        ensures
            self.wf(),
            self.healthy().no_duplicates(),
            peers@.len() == (if max_count <= self.healthy().len() {
                max_count as int
            } else {
                self.healthy().len() as int
            }),
            exists|places: Seq<int>|
                {
                    &&& places.len() == peers@.len()
                    &&& places.no_duplicates()
                    &&& forall|k: int|
                        0 <= k < places.len() ==> 0 <= #[trigger] places[k] < self.healthy().len()
                            && self@.states.contains_key(self.healthy()[places[k]])
                            && peers@[k]@ == self@.states[self.healthy()[places[k]]].peer_info
                },
    {
        proof {
            use_type_invariant(&self.peer_states);
            use_type_invariant(&self.addr_peers);
            self.lemma_healthy();
        }
        proof {
            use_type_invariant(&self.peer_states);
            self.peer_states.lemma_entries();
        }
        let ghost keys = self.peer_states.keys();
        let ghost test = |id: Seq<u8>| !(self.peer_states.value(id).status is Banned);
        let mut candidates: Vec<usize> = Vec::new();
        let mut i: usize = 0;
        proof {
            reveal(Seq::filter);
            assert(keys.take(0) =~= Seq::<Seq<u8>>::empty());
        }
        while i < self.peer_states.len()
            invariant
                i <= self.peer_states.entries().len(),
                keys == self.peer_states.keys(),
                keys.len() == self.peer_states.entries().len(),
                test == (|id: Seq<u8>| !(self.peer_states.value(id).status is Banned)),
                candidates@.len() == keys.take(i as int).filter(test).len(),
                forall|c: int|
                    0 <= c < candidates@.len() ==> (#[trigger] candidates@[c]) < i
                        && keys[candidates@[c] as int] == keys.take(i as int).filter(test)[c],
                forall|id: Seq<u8>|
                    self.peer_states.has(id) ==> self.peer_states.value(id)
                        == self.peer_states.entries()[#[trigger] self.peer_states.index_of(id)].1,
            decreases self.peer_states.entries().len() - i,
        {
            let state = self.peer_states.value_at(i);
            proof {
                reveal(Seq::filter);
                use_type_invariant(&self.peer_states);
                self.peer_states.lemma_entries();
                assert(keys.take(i + 1).drop_last() =~= keys.take(i as int));
                assert(keys.take(i + 1).last() == keys[i as int]);
                assert(keys[i as int] == self.peer_states.entries()[i as int].0@);
                assert(self.peer_states.has(keys[i as int]));
                assert(self.peer_states.index_of(keys[i as int]) == i);
            }
            if !state.status.is_banned() {
                candidates.push(i);
            }
            i += 1;
        }
        proof {
            assert(keys.take(i as int) =~= keys);
        }
        let amount = if max_count <= candidates.len() {
            max_count
        } else {
            candidates.len()
        };
        let picked = pick_some(&candidates, amount);
        let ghost places = choose|places: Seq<int>|
            {
                &&& places.len() == picked@.len()
                &&& places.no_duplicates()
                &&& forall|k: int|
                    0 <= k < places.len() ==> 0 <= #[trigger] places[k] < candidates@.len()
                        && picked@[k] == candidates@[places[k]]
            };
        let mut peers: Vec<PeerInfo> = Vec::new();
        let mut k: usize = 0;
        while k < picked.len()
            invariant
                k <= picked@.len(),
                peers@.len() == k,
                keys == self.peer_states.keys(),
                keys.len() == self.peer_states.entries().len(),
                self.healthy() == keys.filter(test),
                candidates@.len() == self.healthy().len(),
                places.len() == picked@.len(),
                forall|m: int|
                    0 <= m < places.len() ==> 0 <= #[trigger] places[m] < candidates@.len()
                        && picked@[m] == candidates@[places[m]],
                forall|c: int|
                    0 <= c < candidates@.len() ==> (#[trigger] candidates@[c]) < keys.len()
                        && keys[candidates@[c] as int] == self.healthy()[c],
                forall|m: int|
                    0 <= m < k ==> self@.states.contains_key(self.healthy()[places[m]]) && (
                    #[trigger] peers@[m])@ == self@.states[self.healthy()[places[m]]].peer_info,
                forall|j: int|
                    0 <= j < keys.len() ==> #[trigger] keys[j] == self.peer_states.entries()[j].0@
                        && self.peer_states.has(keys[j]) && self.peer_states.index_of(keys[j]) == j
                        && self.peer_states.value(keys[j]) == self.peer_states.entries()[j].1,
            decreases picked@.len() - k,
        {
            let at = picked[k];
            proof {
                assert(picked@[k as int] == candidates@[places[k as int]]);
                assert(keys[at as int] == self.healthy()[places[k as int]]);
            }
            peers.push(self.peer_states.value_at(at).peer_info.clone());
            k += 1;
        }
        proof {
            assert(places.len() == peers@.len());
        }
        peers
    }

    /// The addresses that are bound to a peer, each once.
    pub fn bound_addrs(&self) -> (addrs: Vec<SocketAddr>)
        ensures
            self.wf(),
            addrs@.no_duplicates(),
            forall|a: SocketAddr| addrs@.contains(a) == self@.addrs.contains_key(a),
    {
        proof {
            use_type_invariant(&self.peer_states);
            use_type_invariant(&self.addr_peers);
        }
        proof {
            use_type_invariant(&self.addr_peers);
            self.addr_peers.lemma_entries();
        }
        let mut addrs: Vec<SocketAddr> = Vec::new();
        let mut i: usize = 0;
        while i < self.addr_peers.len()
            invariant
                i <= self.addr_peers.entries().len(),
                addrs@ == self.addr_peers.keys().take(i as int),
                self.addr_peers.keys().len() == self.addr_peers.entries().len(),
            decreases self.addr_peers.entries().len() - i,
        {
            let ghost so_far = addrs@;
            addrs.push(*self.addr_peers.key_at(i));
            proof {
                assert(self.addr_peers.keys()[i as int] == self.addr_peers.entries()[i as int].0@);
                assert(addrs@ =~= self.addr_peers.keys().take(i + 1));
            }
            i += 1;
        }
        proof {
            assert(self.addr_peers.keys().take(i as int) =~= self.addr_peers.keys());
        }
        addrs
    }

    /// The peers of the book, in the order in which they came into it.
    pub fn peer_ids(&self) -> (ids: Vec<PeerId>)
        ensures
            self.wf(),
            peer_views(ids@) == self.peer_order(),
    {
        proof {
            use_type_invariant(&self.peer_states);
            use_type_invariant(&self.addr_peers);
        }
        let mut ids: Vec<PeerId> = Vec::new();
        let mut i: usize = 0;
        while i < self.peer_states.len()
            invariant
                i <= self.peer_states.entries().len(),
                ids@.len() == i,
                self.peer_states.keys().len() == self.peer_states.entries().len(),
                forall|j: int| 0 <= j < i ==> (#[trigger] ids@[j])@ == self.peer_states.keys()[j],
            decreases self.peer_states.entries().len() - i,
        {
            ids.push(self.peer_states.key_at(i).dup());
            proof {
                assert(self.peer_states.keys()[i as int] == self.peer_states.entries()[i as int].0@);
            }
            i += 1;
        }
        assert(peer_views(ids@) =~= self.peer_order());
        ids
    }

    /// The peers that are expired at `now`, in the order in which they came
    /// into the book.
    pub closed spec fn expired_peers(&self, expiration: u64, now: u64) -> Seq<Seq<u8>> {
        self.peer_states.keys().filter(
            |id: Seq<u8>| is_expired(self.peer_states.value(id)@, expiration, now),
        )
    }

    /// Each expired peer is once in `expired_peers`, and no other.
    pub proof fn lemma_expired_peers(&self, expiration: u64, now: u64)
        requires
            self.wf(),
        ensures
            self.expired_peers(expiration, now).no_duplicates(),
            forall|id: Seq<u8>|
                #[trigger] self.expired_peers(expiration, now).contains(id) ==> self@.states.contains_key(
                    id,
                ) && is_expired(self@.states[id], expiration, now),
            forall|id: Seq<u8>|
                #[trigger] self@.states.contains_key(id) && is_expired(
                    self@.states[id],
                    expiration,
                    now,
                ) ==> self.expired_peers(expiration, now).contains(id),
    {
        let keys = self.peer_states.keys();
        let test = |id: Seq<u8>| is_expired(self.peer_states.value(id)@, expiration, now);
        assert(self.expired_peers(expiration, now) == keys.filter(test));
        self.peer_states.lemma_entries();
        lemma_filter_distinct(keys, test);
        assert forall|id: Seq<u8>| #[trigger]
            self.expired_peers(expiration, now).contains(id) implies self@.states.contains_key(id)
            && is_expired(self@.states[id], expiration, now) by {
            keys.lemma_filter_contains_rev(test, id);
            assert(test(id));
        }
        assert forall|id: Seq<u8>|
            #[trigger] self@.states.contains_key(id) && is_expired(
                self@.states[id],
                expiration,
                now,
            ) implies self.expired_peers(expiration, now).contains(id) by {
            let j = keys.index_of(id);
            assert(keys[j] == id);
            assert(test(keys[j]));
            keys.lemma_filter_contains(test, j);
        }
    }

    /// Takes the peers out of the book that are not connected and were seen
    /// last more than `expiration` before `now`, each with the binding of its
    /// address. Returns the peers taken out. Fails, and changes nothing,
    /// where some peer was seen last after `now`.
    pub fn remove_expired(&mut self, expiration: u64, now: u64) -> (removed: Result<
        Vec<PeerId>,
        PeerStoreError,
    >)
        ensures
            final(self).wf(),
            seen_in_future(old(self)@, now) ==> removed == Err::<Vec<PeerId>, PeerStoreError>(
                PeerStoreError::SeenInFuture,
            ) && final(self)@ == old(self)@,
            !seen_in_future(old(self)@, now) ==> removed is Ok && peer_views(
                removed.unwrap()@,
            ) == old(self).expired_peers(expiration, now) && final(self)@ == dropped_all(
                old(self)@,
                old(self).expired_peers(expiration, now),
            ),
            index_ok(old(self)@) ==> index_ok(final(self)@),
    {
        proof {
            use_type_invariant(&self.peer_states);
            use_type_invariant(&self.addr_peers);
        }
        proof {
            use_type_invariant(&self.peer_states);
            self.peer_states.lemma_entries();
        }
        let ghost before = self@;
        let ghost keys = self.peer_states.keys();
        let ghost test = |id: Seq<u8>| is_expired(self.peer_states.value(id)@, expiration, now);
        let mut i: usize = 0;
        while i < self.peer_states.len()
            invariant
                i <= self.peer_states.entries().len(),
                *self == *old(self),
                self.wf(),
                forall|j: int|
                    0 <= j < i ==> (#[trigger] self.peer_states.entries()[j]).1.last_seen <= now,
            decreases self.peer_states.entries().len() - i,
        {
            if self.peer_states.value_at(i).last_seen > now {
                proof {
                    use_type_invariant(&self.peer_states);
                    self.peer_states.lemma_entries();
                    let id = self.peer_states.entries()[i as int].0@;
                    assert(self@.states.contains_key(id));
                    assert(self@.states[id].last_seen > now);
                }
                return Err(PeerStoreError::SeenInFuture);
            }
            i += 1;
        }
        proof {
            if seen_in_future(self@, now) {
                let id = choose|id: Seq<u8>|
                    #[trigger] self@.states.contains_key(id) && self@.states[id].last_seen > now;
                let j = self.peer_states.index_of(id);
                assert(self.peer_states.entries()[j].1.last_seen <= now);
            }
            reveal(Seq::filter);
            assert(keys.take(0) =~= Seq::<Seq<u8>>::empty());
        }
        let mut to_remove: Vec<PeerId> = Vec::new();
        let mut k: usize = 0;
        while k < self.peer_states.len()
            invariant
                k <= self.peer_states.entries().len(),
                *self == *old(self),
                self.wf(),
                keys == self.peer_states.keys(),
                keys.len() == self.peer_states.entries().len(),
                test == (|id: Seq<u8>| is_expired(self.peer_states.value(id)@, expiration, now)),
                peer_views(to_remove@) == keys.take(k as int).filter(test),
                forall|j: int|
                    0 <= j < self.peer_states.entries().len() ==> (
                    #[trigger] self.peer_states.entries()[j]).1.last_seen <= now,
            decreases self.peer_states.entries().len() - k,
        {
            let state = self.peer_states.value_at(k);
            proof {
                reveal(Seq::filter);
                use_type_invariant(&self.peer_states);
                self.peer_states.lemma_entries();
                assert(keys.take(k + 1).drop_last() =~= keys.take(k as int));
                assert(keys.take(k + 1).last() == keys[k as int]);
                assert(keys[k as int] == self.peer_states.entries()[k as int].0@);
                assert(self.peer_states.index_of(keys[k as int]) == k);
            }
            let connected = match state.status {
                KnownPeerStatus::Connected => true,
                _ => false,
            };
            if !connected && now - state.last_seen > expiration {
                let ghost so_far = to_remove@;
                to_remove.push(self.peer_states.key_at(k).dup());
                proof {
                    assert(peer_views(to_remove@) =~= peer_views(
                        so_far,
                    ).push(keys[k as int]));
                }
            }
            k += 1;
        }
        proof {
            assert(keys.take(k as int) =~= keys);
        }
        let ghost ids = peer_views(to_remove@);
        let mut m: usize = 0;
        proof {
            assert(ids.take(0) =~= Seq::<Seq<u8>>::empty());
        }
        while m < to_remove.len()
            invariant
                m <= to_remove@.len(),
                ids == peer_views(to_remove@),
                self.wf(),
                self@ == dropped_all(before, ids.take(m as int)),
                index_ok(before) ==> index_ok(self@),
            decreases to_remove@.len() - m,
        {
            let peer_id = &to_remove[m];
            let ghost here = self@;
            proof {
                assert(ids.take(m + 1).drop_last() =~= ids.take(m as int));
                assert(ids.take(m + 1).last() == peer_id@);
                if index_ok(here) {
                    lemma_dropped_keeps_index(here, peer_id@);
                }
            }
            match self.peer_states.remove(peer_id) {
                Some(state) => match state.peer_info.addr {
                    Some(addr) => {
                        let mine = match self.addr_peers.get(&addr) {
                            Some(verified) => verified.peer_id.same(peer_id),
                            None => false,
                        };
                        if mine {
                            self.addr_peers.remove(&addr);
                        }
                    },
                    None => {},
                },
                None => {},
            }
            proof {
                let after = dropped(here, peer_id@);
                assert(self@.states =~= after.states);
                assert(self@.addrs =~= after.addrs);
            }
            m += 1;
        }
        proof {
            assert(ids.take(m as int) =~= ids);
        }
        Ok(to_remove)
    }

    /// Changes the status of a peer of the book, and the time it was seen
    /// last where one is given. Returns the state to be saved.
    fn mark(&mut self, peer_id: &PeerId, status: KnownPeerStatus, seen: Option<u64>) -> (write: Result<
        PeerWrite,
        PeerStoreError,
    >)
        ensures
            final(self).wf(),
            final(self)@ == marked(old(self)@, peer_id@, status, seen),
            final(self).peer_order() == old(self).peer_order(),
            write is Ok == old(self)@.states.contains_key(peer_id@),
            write matches Ok(w) ==> w.peer_id@ == peer_id@ && w.state@ == final(self)@.states[peer_id@],
            write matches Err(e) ==> e == PeerStoreError::PeerMissing,
            index_ok(old(self)@) ==> index_ok(final(self)@),
    {
        proof {
            use_type_invariant(&self.peer_states);
            use_type_invariant(&self.addr_peers);
        }
        proof {
            if index_ok(self@) {
                lemma_marked_keeps_index(self@, peer_id@, status, seen);
            }
        }
        let entry = match self.peer_states.get(peer_id) {
            Some(state) => {
                let mut entry = state.clone();
                match seen {
                    Some(time) => {
                        entry.last_seen = time;
                    },
                    None => {},
                }
                entry.status = status;
                Some(entry)
            },
            None => None,
        };
        match entry {
            Some(entry) => {
                let write = PeerWrite { peer_id: peer_id.dup(), state: entry.clone() };
                self.set_state(peer_id, entry);
                Ok(write)
            },
            None => Err(PeerStoreError::PeerMissing),
        }
    }

    /// Notes that the peer is not connected any more, and was seen at `now`.
    /// Returns the state to be saved; fails where the peer is not in the
    /// book.
    pub fn peer_disconnected(&mut self, peer_id: &PeerId, now: u64) -> (write: Result<
        PeerWrite,
        PeerStoreError,
    >)
        ensures
            final(self).wf(),
            final(self)@ == marked(
                old(self)@,
                peer_id@,
                KnownPeerStatus::NotConnected,
                Some(now),
            ),
            write is Ok == old(self)@.states.contains_key(peer_id@),
            write matches Ok(w) ==> w.peer_id@ == peer_id@ && w.state@ == final(self)@.states[peer_id@],
            write matches Err(e) ==> e == PeerStoreError::PeerMissing,
            index_ok(old(self)@) ==> index_ok(final(self)@),
    {
        proof {
            use_type_invariant(&self.peer_states);
            use_type_invariant(&self.addr_peers);
        }
        self.mark(peer_id, KnownPeerStatus::NotConnected, Some(now))
    }

    /// Bans the peer for `ban_reason` at `now`, when it also was seen last.
    /// Returns the state to be saved; fails where the peer is not in the
    /// book.
    pub fn peer_ban(&mut self, peer_id: &PeerId, ban_reason: ReasonForBan, now: u64) -> (write: Result<
        PeerWrite,
        PeerStoreError,
    >)
        ensures
            final(self).wf(),
            final(self)@ == marked(
                old(self)@,
                peer_id@,
                KnownPeerStatus::Banned(ban_reason, now),
                Some(now),
            ),
            write is Ok == old(self)@.states.contains_key(peer_id@),
            write matches Ok(w) ==> w.peer_id@ == peer_id@ && w.state@ == final(self)@.states[peer_id@],
            write matches Err(e) ==> e == PeerStoreError::PeerMissing,
            index_ok(old(self)@) ==> index_ok(final(self)@),
    {
        proof {
            use_type_invariant(&self.peer_states);
            use_type_invariant(&self.addr_peers);
        }
        self.mark(peer_id, KnownPeerStatus::Banned(ban_reason, now), Some(now))
    }

    /// Lifts the ban of the peer: it is not connected. Returns the state to
    /// be saved; fails where the peer is not in the book.
    pub fn peer_unban(&mut self, peer_id: &PeerId) -> (write: Result<PeerWrite, PeerStoreError>)
        ensures
            final(self).wf(),
            final(self)@ == marked(old(self)@, peer_id@, KnownPeerStatus::NotConnected, None),
            write is Ok == old(self)@.states.contains_key(peer_id@),
            write matches Ok(w) ==> w.peer_id@ == peer_id@ && w.state@ == final(self)@.states[peer_id@],
            write matches Err(e) ==> e == PeerStoreError::PeerMissing,
            index_ok(old(self)@) ==> index_ok(final(self)@),
    {
        proof {
            use_type_invariant(&self.peer_states);
            use_type_invariant(&self.addr_peers);
        }
        self.mark(peer_id, KnownPeerStatus::NotConnected, None)
    }
}

/// The book once it has heard of all `peers`, one after the other, from other
/// peers.
pub open spec fn added_all(book: PeerStoreView, peers: Seq<PeerInfoView>, now: u64) -> PeerStoreView
    decreases peers.len(),
{
    if peers.len() == 0 {
        book
    } else {
        added(added_all(book, peers.drop_last(), now), peers.last(), TrustLevel::Indirect, now)
    }
}

/// The peers whose states are to be saved after the book has heard of all
/// `peers`, one after the other, from other peers.
pub open spec fn added_all_writes(book: PeerStoreView, peers: Seq<PeerInfoView>, now: u64) -> Seq<
    Seq<u8>,
>
    decreases peers.len(),
{
    if peers.len() == 0 {
        Seq::empty()
    } else {
        added_all_writes(book, peers.drop_last(), now) + added_writes(
            added_all(book, peers.drop_last(), now),
            peers.last(),
            TrustLevel::Indirect,
        )
    }
}

/// The book once the peer `id`, if it is known, has the status `status` and,
/// where a time is given, was seen last at that time.
pub open spec fn marked(book: PeerStoreView, id: Seq<u8>, status: KnownPeerStatus, seen: Option<u64>) -> PeerStoreView {
    if book.states.contains_key(id) {
        PeerStoreView {
            states: book.states.insert(
                id,
                KnownPeerStateView {
                    peer_info: book.states[id].peer_info,
                    status,
                    first_seen: book.states[id].first_seen,
                    last_seen: match seen {
                        Some(time) => time,
                        None => book.states[id].last_seen,
                    },
                },
            ),
            addrs: book.addrs,
        }
    } else {
        book
    }
}

/// A change of status keeps the peers and the addresses pointing at each
/// other.
pub proof fn lemma_marked_keeps_index(
    book: PeerStoreView,
    id: Seq<u8>,
    status: KnownPeerStatus,
    seen: Option<u64>,
)
    requires
        index_ok(book),
    ensures
        index_ok(marked(book, id, status, seen)),
{
    let after = marked(book, id, status, seen);
    if book.states.contains_key(id) {
        assert forall|p: Seq<u8>| after.states.contains_key(p) implies (
        #[trigger] after.states[p]).peer_info.id == p by {
            let s = book.states[p];
        }
        assert forall|p: Seq<u8>| after.states.contains_key(p) implies ((
        #[trigger] after.states[p]).peer_info.addr matches Some(a) ==> after.addrs.contains_key(a)
            && after.addrs[a].peer_id == p) by {
            let s = book.states[p];
        }
        assert forall|a: SocketAddr| after.addrs.contains_key(a) implies after.states.contains_key(
            (#[trigger] after.addrs[a]).peer_id,
        ) && after.states[after.addrs[a].peer_id].peer_info.addr == Some(a) by {
            let v = book.addrs[a];
        }
    }
}


/// The book without peers.
pub open spec fn empty_book() -> PeerStoreView {
    PeerStoreView { states: Map::empty(), addrs: Map::empty() }
}

/// Whether a peer can be connected to: it is not connected, or its status is
/// not known, and it has an address.
pub open spec fn can_connect(state: KnownPeerStateView) -> bool {
    &&& state.status == KnownPeerStatus::NotConnected || state.status == KnownPeerStatus::Unknown
    &&& state.peer_info.addr is Some
}

/// The book once the boot node `info` has come in, at `now`.
pub open spec fn boot_added(book: PeerStoreView, info: PeerInfoView, now: u64) -> PeerStoreView {
    if !book.states.contains_key(info.id) && info.addr is Some && !book.addrs.contains_key(
        info.addr.unwrap(),
    ) {
        PeerStoreView {
            states: book.states.insert(info.id, new_state(info, now)),
            addrs: book.addrs.insert(
                info.addr.unwrap(),
                VerifiedPeerView { peer_id: info.id, trust_level: TrustLevel::Signed },
            ),
        }
    } else {
        book
    }
}

/// The book once all boot nodes have come in, one after the other.
pub open spec fn booted(book: PeerStoreView, infos: Seq<PeerInfoView>, now: u64) -> PeerStoreView
    decreases infos.len(),
{
    if infos.len() == 0 {
        book
    } else {
        boot_added(booted(book, infos.drop_last(), now), infos.last(), now)
    }
}

/// The state of a saved peer when it comes into the book at `now`: seen last
/// at `now`, and not connected unless it is banned.
pub open spec fn reloaded(state: KnownPeerStateView, now: u64) -> KnownPeerStateView {
    KnownPeerStateView {
        peer_info: state.peer_info,
        status: if state.status is Banned {
            state.status
        } else {
            KnownPeerStatus::NotConnected
        },
        first_seen: state.first_seen,
        last_seen: now,
    }
}

/// The book once the peer saved under `id` has come in.
pub open spec fn row_loaded(book: PeerStoreView, id: Seq<u8>, state: KnownPeerStateView, now: u64) -> PeerStoreView {
    let fresh = reloaded(state, now);
    if book.states.contains_key(id) {
        if fresh.status is Banned {
            PeerStoreView {
                states: book.states.insert(
                    id,
                    KnownPeerStateView {
                        peer_info: book.states[id].peer_info,
                        status: fresh.status,
                        first_seen: book.states[id].first_seen,
                        last_seen: book.states[id].last_seen,
                    },
                ),
                addrs: book.addrs,
            }
        } else {
            book
        }
    } else if fresh.peer_info.addr is Some && !book.addrs.contains_key(fresh.peer_info.addr.unwrap()) {
        PeerStoreView {
            states: book.states.insert(id, fresh),
            addrs: book.addrs.insert(
                fresh.peer_info.addr.unwrap(),
                VerifiedPeerView { peer_id: fresh.peer_info.id, trust_level: TrustLevel::Indirect },
            ),
        }
    } else {
        book
    }
}

/// The book once all saved peers have come in, one after the other.
pub open spec fn loaded(
    book: PeerStoreView,
    rows: Seq<(Seq<u8>, KnownPeerStateView)>,
    now: u64,
) -> PeerStoreView
    decreases rows.len(),
{
    if rows.len() == 0 {
        book
    } else {
        row_loaded(loaded(book, rows.drop_last(), now), rows.last().0, rows.last().1, now)
    }
}

/// The saved peers as values.
pub open spec fn saved_views(saved: Seq<(PeerId, KnownPeerState)>) -> Seq<(Seq<u8>, KnownPeerStateView)> {
    Seq::new(saved.len(), |i: int| (saved[i].0@, saved[i].1@))
}

/// Each saved peer was saved under its own identity.
pub open spec fn rows_consistent(rows: Seq<(Seq<u8>, KnownPeerStateView)>) -> bool {
    forall|i: int| 0 <= i < rows.len() ==> (#[trigger] rows[i]).0 == rows[i].1.peer_info.id
}

/// A boot node that comes in keeps the peers and the addresses pointing at
/// each other.
pub proof fn lemma_boot_keeps_index(book: PeerStoreView, info: PeerInfoView, now: u64)
    requires
        index_ok(book),
    ensures
        index_ok(boot_added(book, info, now)),
{
    let after = boot_added(book, info, now);
    if after != book {
        assert forall|p: Seq<u8>| after.states.contains_key(p) implies ((
        #[trigger] after.states[p]).peer_info.addr matches Some(a) ==> after.addrs.contains_key(a)
            && after.addrs[a].peer_id == p) by {
            if p != info.id {
                let s = book.states[p];
            }
        }
        assert forall|a: SocketAddr| after.addrs.contains_key(a) implies after.states.contains_key(
            (#[trigger] after.addrs[a]).peer_id,
        ) && after.states[after.addrs[a].peer_id].peer_info.addr == Some(a) by {
            if a != info.addr.unwrap() {
                let v = book.addrs[a];
            }
        }
    }
}

/// A saved peer that comes in under its own identity keeps the peers and the
/// addresses pointing at each other.
pub proof fn lemma_row_keeps_index(book: PeerStoreView, id: Seq<u8>, state: KnownPeerStateView, now: u64)
    requires
        index_ok(book),
        id == state.peer_info.id,
    ensures
        index_ok(row_loaded(book, id, state, now)),
{
    let after = row_loaded(book, id, state, now);
    if after != book {
        assert forall|p: Seq<u8>| after.states.contains_key(p) implies (
        #[trigger] after.states[p]).peer_info.id == p by {
            if p != id {
                let s = book.states[p];
            }
        }
        assert forall|p: Seq<u8>| after.states.contains_key(p) implies ((
        #[trigger] after.states[p]).peer_info.addr matches Some(a) ==> after.addrs.contains_key(a)
            && after.addrs[a].peer_id == p) by {
            if p != id {
                let s = book.states[p];
            } else if book.states.contains_key(id) {
                let s = book.states[id];
            }
        }
        assert forall|a: SocketAddr| after.addrs.contains_key(a) implies after.states.contains_key(
            (#[trigger] after.addrs[a]).peer_id,
        ) && after.states[after.addrs[a].peer_id].peer_info.addr == Some(a) by {
            if book.addrs.contains_key(a) {
                let v = book.addrs[a];
                if v.peer_id == id && book.states.contains_key(id) {
                    let s = book.states[id];
                }
            }
        }
    }
}


/// Whether some peer of the book was seen last after `now`.
pub open spec fn seen_in_future(book: PeerStoreView, now: u64) -> bool {
    exists|id: Seq<u8>| #[trigger] book.states.contains_key(id) && book.states[id].last_seen > now
}

/// Whether a peer is expired at `now`: it is not connected and was seen last
/// more than `expiration` before.
pub open spec fn is_expired(state: KnownPeerStateView, expiration: u64, now: u64) -> bool {
    state.status != KnownPeerStatus::Connected && now - state.last_seen > expiration
}

/// The book without the peer `id` and without the binding of its address.
pub open spec fn dropped(book: PeerStoreView, id: Seq<u8>) -> PeerStoreView {
    PeerStoreView {
        states: book.states.remove(id),
        addrs: if book.states.contains_key(id) && book.states[id].peer_info.addr is Some
            && book.addrs.contains_key(book.states[id].peer_info.addr.unwrap())
            && book.addrs[book.states[id].peer_info.addr.unwrap()].peer_id == id {
            book.addrs.remove(book.states[id].peer_info.addr.unwrap())
        } else {
            book.addrs
        },
    }
}

/// The book without the peers `ids`, taken out one after the other.
pub open spec fn dropped_all(book: PeerStoreView, ids: Seq<Seq<u8>>) -> PeerStoreView
    decreases ids.len(),
{
    if ids.len() == 0 {
        book
    } else {
        dropped(dropped_all(book, ids.drop_last()), ids.last())
    }
}

/// Taking a peer out keeps the peers and the addresses pointing at each
/// other.
pub proof fn lemma_dropped_keeps_index(book: PeerStoreView, id: Seq<u8>)
    requires
        index_ok(book),
    ensures
        index_ok(dropped(book, id)),
{
    let after = dropped(book, id);
    assert forall|p: Seq<u8>| after.states.contains_key(p) implies ((
    #[trigger] after.states[p]).peer_info.addr matches Some(a) ==> after.addrs.contains_key(a)
        && after.addrs[a].peer_id == p) by {
        let s = book.states[p];
        if book.states.contains_key(id) {
            let t = book.states[id];
        }
    }
    assert forall|a: SocketAddr| after.addrs.contains_key(a) implies after.states.contains_key(
        (#[trigger] after.addrs[a]).peer_id,
    ) && after.states[after.addrs[a].peer_id].peer_info.addr == Some(a) by {
        let v = book.addrs[a];
        if v.peer_id == id {
            let t = book.states[id];
        }
    }
}

} // verus!
