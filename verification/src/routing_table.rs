//! The routing table as one node sees it: its own edges, the next hops to
//! every peer, the accounts it knows, the routes back, and how often it used
//! each next hop.

use cached::SizedCache;
use std::sync::Arc;
use vstd::prelude::*;
use crate::announce::{announce_views, AccountId, AnnounceAccount, AnnounceView};
use crate::bytes::{bytes_copy, lemma_lex_asymmetric, lemma_lex_transitive};
use crate::edge::{key_of, Edge, SimpleEdge};
use crate::keys::{peer_views, CryptoHash, PeerId};
use crate::lru::{
    announce_entries, announce_limit, announces_get, announces_keys, announces_set, announces_size,
    announces_values, announces_with_size, counter_entries, counter_limit, counters_get,
    counters_get_mut, counters_set, counters_with_size, echo_entries, echo_limit, echoes_count,
    echoes_list, echoes_set, echoes_with_size, lru_distinct, lru_has, lru_put, lru_touched,
    lru_value, lru_without, sent_remove, sent_set, sent_with_size, waiting_entries,
    waiting_get_mut, waiting_limit, waiting_set, waiting_with_size,
};
use crate::round_robin::{
    bumped, count_of, goes_before, is_least, is_top, least_route, lemma_least_and_top,
    lemma_looked_up_all, looked_up_all, served, top_count,
    ROUND_ROBIN_MAX_NONCE_DIFFERENCE_ALLOWED,
};
use crate::route_back::{holds_hash, older_count, place_of, RouteBack, RouteBackCache};
use crate::vec_map::VecMap;

verus! {

/// How many announcements of accounts are kept.
pub const ANNOUNCE_ACCOUNT_CACHE_SIZE: usize = 10_000;

/// How many routes back are kept.
pub const ROUTE_BACK_CACHE_SIZE: u64 = 100_000;

/// After how many milliseconds a route back is expired.
pub const ROUTE_BACK_CACHE_EVICT_TIMEOUT: u64 = 120_000;

/// How many of the oldest routes back leave a full cache at once.
pub const ROUTE_BACK_CACHE_REMOVE_BATCH: u64 = 100;

/// How many pings, pongs and ping nonces are kept.
pub const PING_PONG_CACHE_SIZE: usize = 1_000;

/// For how many pings to one peer the time of sending is kept.
pub const WAITING_PONG_CACHE_SIZE: usize = 10;

/// For how many next hops the number of uses is kept.
pub const ROUND_ROBIN_NONCE_CACHE_SIZE: usize = 10_000;

/// After how many seconds without a route to some peer the edges are cleaned.
pub const SAVE_PEERS_MAX_TIME: u64 = 7_200;

/// After how many seconds a peer without connection leaves the table.
pub const DELETE_PEERS_AFTER_TIME: u64 = 3_600;

/// A ping: its nonce and the peer that sent it.
#[derive(Clone, Debug, PartialEq, Eq, Hash)]
pub struct Ping {
    pub nonce: u64,
    pub source: PeerId,
}

/// A pong: the nonce of the ping it answers and the peer that sent it.
#[derive(Clone, Debug, PartialEq, Eq, Hash)]
pub struct Pong {
    pub nonce: u64,
    pub source: PeerId,
}

/// Where a message is to go: to a peer, or back to where the message with a
/// hash came from.
#[derive(Clone, Debug, PartialEq, Eq, Hash)]
pub enum PeerIdOrHash {
    PeerId(PeerId),
    Hash(CryptoHash),
}

/// Why no route was found.
#[derive(Clone, Copy, Debug, PartialEq, Eq, Structural)]
pub enum FindRouteError {
    /// The peer is known, with no next hop.
    Disconnected,
    /// The peer is not known.
    PeerNotFound,
    /// The account is not known.
    AccountNotFound,
    /// No route back is kept for the hash.
    RouteBackNotFound,
}

/// The answer to a request for the routing table: the edges without their
/// signatures.
#[derive(Debug)]
pub struct GetRoutingTableResult {
    pub edges_info: Vec<SimpleEdge>,
}

/// What the routing table tells about itself.
#[derive(Debug)]
pub struct RoutingTableInfo {
    /// For each account known, the peer of its owner.
    pub account_peers: VecMap<AccountId, PeerId>,
    /// For each peer with a route, the next hops.
    pub peer_forwarding: Arc<VecMap<PeerId, Vec<PeerId>>>,
}

/// How often the ping or pong under `key` has come.
pub open spec fn echo_count(entries: Seq<(usize, (u64, Seq<u8>, usize))>, key: usize) -> Option<usize> {
    match lru_value(entries, key) {
        Some(entry) => Some(entry.2),
        None => None,
    }
}

/// The pings or pongs after one with the nonce `nonce` from `source` has
/// been counted: the entry under the nonce is looked up and then set to the
/// new ping or pong with the next count.
pub open spec fn echo_counted(
    entries: Seq<(usize, (u64, Seq<u8>, usize))>,
    limit: usize,
    nonce: u64,
    source: Seq<u8>,
) -> Seq<(usize, (u64, Seq<u8>, usize))> {
    lru_put(
        lru_touched(entries, nonce as usize),
        limit,
        nonce as usize,
        (nonce, source, bumped(echo_count(entries, nonce as usize))),
    )
}

/// The pings waited for after a ping with the nonce `nonce` was sent to
/// `target` at the time `now`. A target without a cache of times gets an
/// empty one for 10 pings; then the cache of the target is looked up, and
/// the time is set in it under the nonce.
pub open spec fn ping_sent(
    waiting: Seq<(Seq<u8>, (usize, Seq<(usize, u64)>))>,
    limit: usize,
    target: Seq<u8>,
    nonce: usize,
    now: u64,
) -> Seq<(Seq<u8>, (usize, Seq<(usize, u64)>))> {
    let with_target = if lru_has(waiting, target) {
        waiting
    } else {
        lru_put(waiting, limit, target, (WAITING_PONG_CACHE_SIZE, Seq::<(usize, u64)>::empty()))
    };
    let times = lru_value(with_target, target).unwrap();
    lru_touched(with_target, target).update(
        0,
        (target, (times.0, lru_put(times.1, times.0, nonce, now))),
    )
}

/// The pings waited for after the pong for the ping with the nonce `nonce`
/// came from `source`: the cache of the source, if it has one, is looked up,
/// and the ping is in it no more.
pub open spec fn pong_came(
    waiting: Seq<(Seq<u8>, (usize, Seq<(usize, u64)>))>,
    source: Seq<u8>,
    nonce: usize,
) -> Seq<(Seq<u8>, (usize, Seq<(usize, u64)>))> {
    if lru_has(waiting, source) {
        let times = lru_value(waiting, source).unwrap();
        lru_touched(waiting, source).update(0, (source, (times.0, lru_without(times.1, nonce))))
    } else {
        waiting
    }
}

/// The time from the sending of the ping with the nonce `nonce` to `source`
/// until `now`, if the ping is waited for; 0 where it was sent after `now`.
pub open spec fn round_trip(
    waiting: Seq<(Seq<u8>, (usize, Seq<(usize, u64)>))>,
    source: Seq<u8>,
    nonce: usize,
    now: u64,
) -> Option<u64> {
    if lru_has(waiting, source) {
        match lru_value(lru_value(waiting, source).unwrap().1, nonce) {
            Some(sent) => Some(if now >= sent {
                (now - sent) as u64
            } else {
                0
            }),
            None => None,
        }
    } else {
        None
    }
}

/// After a key is set it is there, with the value set.
pub proof fn lemma_put_holds<K, V>(entries: Seq<(K, V)>, limit: usize, key: K, value: V)
    requires
        lru_distinct(lru_put(entries, limit, key, value)),
    ensures
        lru_has(lru_put(entries, limit, key, value), key),
        lru_value(lru_put(entries, limit, key, value), key) == Some(value),
{
    let kept = crate::lru::lru_room(entries, limit);
    let after = lru_put(entries, limit, key, value);
    let at = if lru_has(kept, key) {
        crate::lru::lru_place(kept, key)
    } else {
        0
    };
    assert(after[at] == (key, value));
    let found = crate::lru::lru_place(after, key);
    if found < at {
        assert(after[found].0 != after[at].0);
    }
    if at < found {
        assert(after[at].0 != after[found].0);
    }
}

/// Calls `Arc::clone`, which makes another pointer to the same value.
/// Believed: what the new pointer points to is what the old one points to.
#[verifier::external_body]
fn share_forwarding(table: &Arc<VecMap<PeerId, Vec<PeerId>>>) -> (shared: Arc<
    VecMap<PeerId, Vec<PeerId>>,
>)
    ensures
        shared == *table,
{
    table.clone()
}

/// The routing table as one node sees it.
pub struct RoutingTableView {
    /// The peer that this table belongs to.
    my_peer_id: PeerId,
    /// The announcement of each account known, by the account's name.
    account_peers: SizedCache<Vec<u8>, AnnounceAccount>,
    /// For each peer with a route, the neighbours through which a shortest
    /// route to it begins.
    peer_forwarding: Arc<VecMap<PeerId, Vec<PeerId>>>,
    /// The newest edge for each pair of this peer with a neighbour.
    local_edges_info: VecMap<(PeerId, PeerId), Edge>,
    /// For the hash of a message, the peer it came from.
    route_back: RouteBackCache,
    /// How often each next hop was used.
    route_nonce: SizedCache<Vec<u8>, usize>,
    /// The pings received, by nonce, and how often each came.
    ping_info: SizedCache<usize, (u64, PeerId, usize)>,
    /// The pongs received, by nonce, and how often each came.
    pong_info: SizedCache<usize, (u64, PeerId, usize)>,
    /// The pings sent that no pong has answered yet: for each target the
    /// times of sending by nonce.
    waiting_pong: SizedCache<Vec<u8>, SizedCache<usize, u64>>,
    /// The nonce of the next ping to each peer.
    last_ping_nonce: SizedCache<Vec<u8>, usize>,
}

impl RoutingTableView {
    /// The peer that this table belongs to.
    pub closed spec fn me(&self) -> Seq<u8> {
        self.my_peer_id@
    }

    /// For each peer with a route, the neighbours through which a shortest
    /// route to it begins.
    pub closed spec fn forwarding(&self) -> VecMap<PeerId, Vec<PeerId>> {
        *self.peer_forwarding
    }

    /// The newest edge for each pair of this peer with a neighbour.
    pub closed spec fn local_edges(&self) -> VecMap<(PeerId, PeerId), Edge> {
        self.local_edges_info
    }

    /// The cache of routes back.
    pub closed spec fn route_backs(&self) -> RouteBackCache {
        self.route_back
    }

    /// How often each next hop was used, from the most to the least recently
    /// used hop.
    pub closed spec fn route_nonces(&self) -> Seq<(Seq<u8>, usize)> {
        counter_entries(self.route_nonce)
    }

    /// The nonce of the next ping to each peer, from the most to the least
    /// recently used peer.
    pub closed spec fn ping_nonces(&self) -> Seq<(Seq<u8>, usize)> {
        counter_entries(self.last_ping_nonce)
    }

    /// The announcements known, from the most to the least recently used.
    pub closed spec fn accounts(&self) -> Seq<(Seq<u8>, AnnounceView)> {
        announce_entries(self.account_peers)
    }

    /// The pings received: under each nonce the nonce in full, the sender and
    /// how often the ping came.
    pub closed spec fn pings(&self) -> Seq<(usize, (u64, Seq<u8>, usize))> {
        echo_entries(self.ping_info)
    }

    /// The pongs received: under each nonce the nonce in full, the sender and
    /// how often the pong came.
    pub closed spec fn pongs(&self) -> Seq<(usize, (u64, Seq<u8>, usize))> {
        echo_entries(self.pong_info)
    }

    /// The pings sent that no pong has answered yet: for each target, from
    /// the most to the least recently used, the size of its cache of times
    /// and the times of sending by nonce.
    pub closed spec fn waiting(&self) -> Seq<(Seq<u8>, (usize, Seq<(usize, u64)>))> {
        waiting_entries(self.waiting_pong)
    }

    /// The caches have the sizes they were made with and hold no key twice,
    /// and the routes back are in the order of their times.
    pub closed spec fn wf(&self) -> bool {
        &&& self.route_back.wf()
        &&& self.route_back.capacity() == ROUTE_BACK_CACHE_SIZE
        &&& self.route_back.evict_timeout() == ROUTE_BACK_CACHE_EVICT_TIMEOUT
        &&& self.route_back.remove_batch() == ROUTE_BACK_CACHE_REMOVE_BATCH
        &&& counter_limit(self.route_nonce) == ROUND_ROBIN_NONCE_CACHE_SIZE
        &&& counter_limit(self.last_ping_nonce) == PING_PONG_CACHE_SIZE
        &&& announce_limit(self.account_peers) == ANNOUNCE_ACCOUNT_CACHE_SIZE
        &&& echo_limit(self.ping_info) == PING_PONG_CACHE_SIZE
        &&& echo_limit(self.pong_info) == PING_PONG_CACHE_SIZE
        &&& waiting_limit(self.waiting_pong) == PING_PONG_CACHE_SIZE
        &&& lru_distinct(waiting_entries(self.waiting_pong))
        &&& lru_distinct(counter_entries(self.route_nonce))
        &&& lru_distinct(counter_entries(self.last_ping_nonce))
        &&& lru_distinct(announce_entries(self.account_peers))
        &&& lru_distinct(echo_entries(self.ping_info))
        &&& lru_distinct(echo_entries(self.pong_info))
    }

    /// In a table that is well formed no cache holds a key twice, and the
    /// cache of routes back is well formed and has the limits it was made
    /// with.
    pub proof fn lemma_distinct_keys(&self)
        requires
            self.wf(),
        ensures
            lru_distinct(self.route_nonces()),
            lru_distinct(self.ping_nonces()),
            lru_distinct(self.accounts()),
            lru_distinct(self.pings()),
            lru_distinct(self.pongs()),
            lru_distinct(self.waiting()),
            self.route_backs().wf(),
            self.route_backs().capacity() == ROUTE_BACK_CACHE_SIZE,
            self.route_backs().evict_timeout() == ROUTE_BACK_CACHE_EVICT_TIMEOUT,
            self.route_backs().remove_batch() == ROUTE_BACK_CACHE_REMOVE_BATCH,
    {
    }

    /// A route back is not overwritten while it is not older than the
    /// timeout, with a clock that does not go back. Where the route back
    /// for a hash was noted at `t1`, turning the table `before` into
    /// `noted`, a second route back for the hash at `t2` is turned down and
    /// leaves the table `after` with the peer noted first, and what
    /// eviction at `t3` leaves still holds that peer for the hash.
    pub proof fn lemma_route_back_is_kept(
        before: RoutingTableView,
        noted: RoutingTableView,
        after: RoutingTableView,
        hash: Seq<u8>,
        first: Seq<u8>,
        second: Seq<u8>,
        t1: u64,
        t2: u64,
        t3: u64,
    )
        requires
            before.wf(),
            noted.wf(),
            after.wf(),
            forall|i: int|
                0 <= i < before.route_backs()@.len() ==> (#[trigger] before.route_backs()@[i]).time
                    <= t1,
            t1 <= t2 <= t3,
            t3 - t1 <= ROUTE_BACK_CACHE_EVICT_TIMEOUT,
            !holds_hash(before.route_backs().after_eviction(t1), hash),
            noted.route_backs()@ == before.route_backs().after_insert(hash, first, t1),
            after.route_backs()@ == noted.route_backs().after_insert(hash, second, t2),
        ensures
            holds_hash(noted.route_backs().after_eviction(t2), hash),
            after.route_backs()@ == noted.route_backs().after_eviction(t2),
            holds_hash(after.route_backs()@, hash),
            after.route_backs()@[place_of(after.route_backs()@, hash)].peer == first,
            holds_hash(after.route_backs().after_eviction(t3), hash),
            after.route_backs().after_eviction(t3)[place_of(
                after.route_backs().after_eviction(t3),
                hash,
            )].peer == first,
    {
        RouteBackCache::lemma_first_route_back_stays(
            before.route_backs(),
            noted.route_backs(),
            after.route_backs(),
            hash,
            first,
            second,
            t1,
            t2,
            t3,
        );
    }

    /// What finding the next hop to `peer` does, from the table `before` to
    /// the table `after` with the answer `route`. A peer that the table of
    /// next hops does not hold is not found, and a peer without next hops is
    /// disconnected; the counters then stay as they are. Else the answer is
    /// the hop that goes before all others, and the counters are those after
    /// all hops were looked up and the hop was served.
    pub open spec fn hop_found(
        before: RoutingTableView,
        after: RoutingTableView,
        peer: Seq<u8>,
        route: Result<PeerId, FindRouteError>,
    ) -> bool {
        &&& after.same_but_route_nonces(before)
        &&& !before.forwarding().has(peer) ==> route == Err::<PeerId, FindRouteError>(
            FindRouteError::PeerNotFound,
        )
        &&& before.forwarding().has(peer) && before.forwarding().value(peer)@.len() == 0 ==> route
            == Err::<PeerId, FindRouteError>(FindRouteError::Disconnected)
        &&& route is Err ==> after.route_nonces() == before.route_nonces()
        &&& before.forwarding().has(peer) && before.forwarding().value(peer)@.len() > 0 ==> {
            let routes = peer_views(before.forwarding().value(peer)@);
            let counters = before.route_nonces();
            &&& route is Ok
            &&& route.unwrap()@ == least_route(routes, counters)
            &&& is_least(routes, counters, route.unwrap()@)
            &&& after.route_nonces() == served(
                looked_up_all(counters, routes),
                ROUND_ROBIN_NONCE_CACHE_SIZE,
                route.unwrap()@,
                count_of(counters, route.unwrap()@),
                top_count(routes, counters),
            )
        }
    }

    /// `other` differs from this table at most in how often the next hops
    /// were used.
    pub open spec fn same_but_route_nonces(&self, other: RoutingTableView) -> bool {
        &&& self.me() == other.me()
        &&& self.accounts() == other.accounts()
        &&& self.forwarding() == other.forwarding()
        &&& self.local_edges() == other.local_edges()
        &&& self.route_backs() == other.route_backs()
        &&& self.pings() == other.pings()
        &&& self.pongs() == other.pongs()
        &&& self.waiting() == other.waiting()
        &&& self.ping_nonces() == other.ping_nonces()
    }

    /// `other` differs from this table at most in the routes back.
    pub open spec fn same_but_route_back(&self, other: RoutingTableView) -> bool {
        &&& self.me() == other.me()
        &&& self.accounts() == other.accounts()
        &&& self.forwarding() == other.forwarding()
        &&& self.local_edges() == other.local_edges()
        &&& self.route_nonces() == other.route_nonces()
        &&& self.pings() == other.pings()
        &&& self.pongs() == other.pongs()
        &&& self.waiting() == other.waiting()
        &&& self.ping_nonces() == other.ping_nonces()
    }

    /// `other` differs from this table at most in the announcements.
    pub open spec fn same_but_accounts(&self, other: RoutingTableView) -> bool {
        &&& self.me() == other.me()
        &&& self.forwarding() == other.forwarding()
        &&& self.local_edges() == other.local_edges()
        &&& self.route_backs() == other.route_backs()
        &&& self.route_nonces() == other.route_nonces()
        &&& self.pings() == other.pings()
        &&& self.pongs() == other.pongs()
        &&& self.waiting() == other.waiting()
        &&& self.ping_nonces() == other.ping_nonces()
    }

    /// `other` differs from this table at most in the pings, the pongs, the
    /// pings waited for and the ping nonces.
    pub open spec fn same_but_pings(&self, other: RoutingTableView) -> bool {
        &&& self.me() == other.me()
        &&& self.accounts() == other.accounts()
        &&& self.forwarding() == other.forwarding()
        &&& self.local_edges() == other.local_edges()
        &&& self.route_backs() == other.route_backs()
        &&& self.route_nonces() == other.route_nonces()
    }

    /// All but the cache of the uses of the next hops is as in `other`.
    spec fn kept_but_route_nonce(&self, other: RoutingTableView) -> bool {
        &&& self.my_peer_id == other.my_peer_id
        &&& self.account_peers == other.account_peers
        &&& self.peer_forwarding == other.peer_forwarding
        &&& self.local_edges_info == other.local_edges_info
        &&& self.route_back == other.route_back
        &&& self.ping_info == other.ping_info
        &&& self.pong_info == other.pong_info
        &&& self.waiting_pong == other.waiting_pong
        &&& self.last_ping_nonce == other.last_ping_nonce
    }

    /// The table of `my_peer_id`, with nothing in it.
    pub fn new(my_peer_id: PeerId) -> (table: RoutingTableView)
        ensures
            table.wf(),
            table.me() == my_peer_id@,
            table.accounts().len() == 0,
            table.route_nonces().len() == 0,
            table.ping_nonces().len() == 0,
            table.pings().len() == 0,
            table.pongs().len() == 0,
            table.waiting().len() == 0,
            table.forwarding().entries().len() == 0,
            table.local_edges().entries().len() == 0,
            table.route_backs().wf(),
            table.route_backs()@.len() == 0,
            table.route_backs().capacity() == ROUTE_BACK_CACHE_SIZE,
            table.route_backs().evict_timeout() == ROUTE_BACK_CACHE_EVICT_TIMEOUT,
            table.route_backs().remove_batch() == ROUTE_BACK_CACHE_REMOVE_BATCH,
    {
        RoutingTableView {
            my_peer_id,
            account_peers: announces_with_size(ANNOUNCE_ACCOUNT_CACHE_SIZE),
            peer_forwarding: Arc::new(VecMap::new()),
            local_edges_info: VecMap::new(),
            route_back: RouteBackCache::new(
                ROUTE_BACK_CACHE_SIZE,
                ROUTE_BACK_CACHE_EVICT_TIMEOUT,
                ROUTE_BACK_CACHE_REMOVE_BATCH,
            ),
            route_nonce: counters_with_size(ROUND_ROBIN_NONCE_CACHE_SIZE),
            ping_info: echoes_with_size(PING_PONG_CACHE_SIZE),
            pong_info: echoes_with_size(PING_PONG_CACHE_SIZE),
            waiting_pong: waiting_with_size(PING_PONG_CACHE_SIZE),
            last_ping_nonce: counters_with_size(PING_PONG_CACHE_SIZE),
        }
    }

    /// The next hops to every peer with a route.
    pub fn peer_forwarding(&self) -> (table: &Arc<VecMap<PeerId, Vec<PeerId>>>)
        ensures
            **table == self.forwarding(),
    {
        &self.peer_forwarding
    }

    /// Puts a new table of next hops in the place of the old one.
    pub fn set_peer_forwarding(&mut self, table: Arc<VecMap<PeerId, Vec<PeerId>>>)
        ensures
            final(self).forwarding() == *table,
            final(self).wf() == old(self).wf(),
            final(self).me() == old(self).me(),
            final(self).local_edges() == old(self).local_edges(),
            final(self).route_backs() == old(self).route_backs(),
            final(self).route_nonces() == old(self).route_nonces(),
            final(self).ping_nonces() == old(self).ping_nonces(),
            final(self).accounts() == old(self).accounts(),
            final(self).pings() == old(self).pings(),
            final(self).pongs() == old(self).pongs(),
            final(self).waiting() == old(self).waiting(),
    {
        self.peer_forwarding = table;
    }

    /// The edges kept for the pairs of this peer with its neighbours.
    pub fn local_edges_info(&self) -> (edges: &VecMap<(PeerId, PeerId), Edge>)
        ensures
            *edges == self.local_edges(),
    {
        &self.local_edges_info
    }

    /// Keeps `edge` for the pair of its peers, in the place of the edge kept
    /// for the pair before, if there was one.
    pub fn add_local_edge(&mut self, edge: Edge)
        ensures
            final(self).local_edges()@ == old(self).local_edges()@.insert(edge@.key, edge),
            final(self).wf() == old(self).wf(),
            final(self).me() == old(self).me(),
            final(self).forwarding() == old(self).forwarding(),
            final(self).route_backs() == old(self).route_backs(),
            final(self).route_nonces() == old(self).route_nonces(),
            final(self).ping_nonces() == old(self).ping_nonces(),
            final(self).accounts() == old(self).accounts(),
            final(self).pings() == old(self).pings(),
            final(self).pongs() == old(self).pongs(),
            final(self).waiting() == old(self).waiting(),
    {
        let key = (edge.inner().key.0.dup(), edge.inner().key.1.dup());
        self.local_edges_info.insert(key, edge);
    }

    /// The cache of routes back.
    pub fn route_back(&self) -> (cache: &RouteBackCache)
        ensures
            *cache == self.route_backs(),
    {
        &self.route_back
    }

    /// The peer that this table belongs to.
    pub fn my_peer_id(&self) -> (peer: &PeerId)
        ensures
            peer@ == self.me(),
    {
        &self.my_peer_id
    }

    /// Whether an edge with the nonce `nonce` is newer than the edge kept for
    /// the pair `key`: whether none is kept or the one kept has a lower
    /// nonce. This peer is one of the pair.
    pub fn is_local_edge_newer(&self, key: &(PeerId, PeerId), nonce: u64) -> (newer: bool)
        requires
            key.0@ == self.me() || key.1@ == self.me(),
        ensures
            newer == (!self.local_edges().has(key@) || self.local_edges().value(key@)@.nonce
                < nonce),
    {
        match self.local_edges_info.get(key) {
            Some(edge) => edge.inner().nonce < nonce,
            None => true,
        }
    }

    /// The peers to which a route is known.
    pub fn reachable_peers(&self) -> (peers: Vec<PeerId>)
        ensures
            peer_views(peers@) == self.forwarding().keys(),
    {
        let table = &*self.peer_forwarding;
        let mut peers: Vec<PeerId> = Vec::new();
        let mut i: usize = 0;
        while i < table.len()
            invariant
                i <= table.entries().len(),
                peers@.len() == i,
                table.keys().len() == table.entries().len(),
                peer_views(peers@) == table.keys().take(i as int),
            decreases table.entries().len() - i,
        {
            let ghost prev = peers@;
            peers.push(table.key_at(i).dup());
            proof {
                assert(table.keys()[i as int] == table.entries()[i as int].0@);
                assert forall|j: int| 0 <= j < i + 1 implies peer_views(peers@)[j] == table.keys().take(
                    i + 1,
                )[j] by {
                    if j < i {
                        assert(peer_views(prev)[j] == table.keys().take(i as int)[j]);
                    }
                }
                assert(peer_views(peers@) =~= table.keys().take(i + 1));
            }
            i += 1;
        }
        assert(table.keys().take(i as int) =~= table.keys());
        peers
    }

    /// The next hop on a shortest route to `peer_id`. Among the hops of equal
    /// cost the one used least is chosen, of those the smallest; it is then
    /// counted as used once more. A hop that was used more than 10 times less
    /// than the hop used most is first lifted to 10 uses below that one.
    pub fn find_route_from_peer_id(&mut self, peer_id: &PeerId) -> (route: Result<
        PeerId,
        FindRouteError,
    >)
        requires
            old(self).wf(),
        ensures
            final(self).wf(),
            Self::hop_found(*old(self), *final(self), peer_id@, route),
    {
        let routes: &Vec<PeerId> = match (*self.peer_forwarding).get(peer_id) {
            Some(routes) => routes,
            None => {
                return Err(FindRouteError::PeerNotFound);
            },
        };
        if routes.len() == 0 {
            return Err(FindRouteError::Disconnected);
        }
        let ghost before = counter_entries(self.route_nonce);
        let ghost views = peer_views(routes@);
        let mut min_i: usize = 0;
        let mut min_c: usize = 0;
        let mut max_c: usize = 0;
        let mut i: usize = 0;
        proof {
            assert(views.take(0) =~= Seq::<Seq<u8>>::empty());
        }
        while i < routes.len()
            invariant
                i <= routes@.len(),
                routes@.len() > 0,
                views == peer_views(routes@),
                old(self).wf(),
                self.kept_but_route_nonce(*old(self)),
                min_i < routes@.len(),
                lru_distinct(before),
                counter_entries(self.route_nonce) == looked_up_all(before, views.take(i as int)),
                counter_limit(self.route_nonce) == ROUND_ROBIN_NONCE_CACHE_SIZE,
                i > 0 ==> min_i < i && min_c == count_of(before, views[min_i as int]),
                forall|j: int|
                    0 <= j < i ==> !goes_before(
                        (count_of(before, #[trigger] views[j]), views[j]),
                        (min_c, views[min_i as int]),
                    ),
                i > 0 ==> exists|j: int| 0 <= j < i && count_of(before, #[trigger] views[j]) == max_c,
                forall|j: int| 0 <= j < i ==> count_of(before, #[trigger] views[j]) <= max_c,
            decreases routes@.len() - i,
        {
            let ghost seen = counter_entries(self.route_nonce);
            let found = counters_get(&mut self.route_nonce, routes[i].as_bytes());
            let c: usize = match found {
                Some(n) => n,
                None => 0,
            };
            proof {
                lemma_looked_up_all(before, views.take(i as int));
                assert(views.take(i + 1).drop_last() =~= views.take(i as int));
                assert(views.take(i + 1).last() == views[i as int]);
                assert(c == count_of(before, views[i as int]));
            }
            let take = i == 0 || c < min_c || (c == min_c && routes[i].lt(&routes[min_i]));
            if take {
                proof {
                    let old_min = (min_c, views[min_i as int]);
                    let new_min = (c, views[i as int]);
                    assert forall|j: int| 0 <= j < i + 1 implies !goes_before(
                        (count_of(before, #[trigger] views[j]), views[j]),
                        new_min,
                    ) by {
                        if j < i {
                            let pair = (count_of(before, views[j]), views[j]);
                            if goes_before(pair, new_min) {
                                if pair.0 == new_min.0 && new_min.0 == old_min.0 {
                                    lemma_lex_transitive(pair.1, new_min.1, old_min.1);
                                }
                                assert(goes_before(pair, old_min));
                            }
                        } else {
                            lemma_lex_asymmetric(views[i as int], views[i as int]);
                        }
                    }
                }
                min_i = i;
                min_c = c;
            }
            let higher = i == 0 || c > max_c;
            if higher {
                max_c = c;
            }
            i += 1;
        }
        proof {
            assert(views.take(i as int) =~= views);
            lemma_looked_up_all(before, views);
            assert(views[min_i as int] == routes@[min_i as int]@);
            assert(is_least(views, before, views[min_i as int]));
            assert(is_top(views, before, max_c));
            lemma_least_and_top(views, before, views[min_i as int], max_c);
        }
        let next_hop = routes[min_i].dup();
        if max_c >= ROUND_ROBIN_MAX_NONCE_DIFFERENCE_ALLOWED && min_c < max_c
            - ROUND_ROBIN_MAX_NONCE_DIFFERENCE_ALLOWED {
            counters_set(
                &mut self.route_nonce,
                bytes_copy(next_hop.as_bytes()),
                max_c - ROUND_ROBIN_MAX_NONCE_DIFFERENCE_ALLOWED,
            );
        }
        let nonce = counters_get(&mut self.route_nonce, next_hop.as_bytes());
        let next: usize = match nonce {
            Some(n) => if n < usize::MAX {
                n + 1
            } else {
                n
            },
            None => 1,
        };
        counters_set(&mut self.route_nonce, bytes_copy(next_hop.as_bytes()), next);
        Ok(next_hop)
    }

    /// The peer to send a message for `target` to. For a peer it is the next
    /// hop on a shortest route; for a hash it is the peer that the message
    /// with the hash came from, and the route back is used up.
    pub fn find_route(&mut self, target: &PeerIdOrHash, now: u64) -> (route: Result<
        PeerId,
        FindRouteError,
    >)
        requires
            old(self).wf(),
        ensures
            final(self).wf(),
            final(self).route_backs().wf(),
            final(self).route_backs().same_limits(old(self).route_backs()),
            match *target {
                PeerIdOrHash::PeerId(peer_id) => Self::hop_found(
                    *old(self),
                    *final(self),
                    peer_id@,
                    route,
                ),
                PeerIdOrHash::Hash(hash) => {
                    let left = old(self).route_backs().after_eviction(now);
                    &&& final(self).same_but_route_back(*old(self))
                    &&& route is Ok <==> holds_hash(left, hash@)
                    &&& route matches Ok(peer) ==> peer@ == left[place_of(left, hash@)].peer
                        && final(self).route_backs()@ == left.remove(place_of(left, hash@))
                    &&& route matches Err(e) ==> e == FindRouteError::RouteBackNotFound && final(self).route_backs()@ == left
                    &&& !holds_hash(final(self).route_backs()@, hash@)
                },
            },
    {
        proof {
            use_type_invariant(&self.route_back);
        }
        match target {
            PeerIdOrHash::PeerId(peer_id) => self.find_route_from_peer_id(peer_id),
            PeerIdOrHash::Hash(hash) => match self.fetch_route_back(hash, now) {
                Some(peer) => Ok(peer),
                None => Err(FindRouteError::RouteBackNotFound),
            },
        }
    }

    /// Notes at the time `now` that the message with the hash `hash` came
    /// from `peer_id`. The answer is `false`, and nothing is noted, where a
    /// route back for the hash is kept already.
    pub fn add_route_back(&mut self, hash: CryptoHash, peer_id: PeerId, now: u64) -> (added: bool)
        requires
            old(self).wf(),
        ensures
            final(self).wf(),
            final(self).route_backs().wf(),
            final(self).route_backs().same_limits(old(self).route_backs()),
            final(self).same_but_route_back(*old(self)),
            added == !holds_hash(old(self).route_backs().after_eviction(now), hash@),
            !added ==> final(self).route_backs()@ == old(self).route_backs().after_eviction(now),
            added ==> final(self).route_backs()@ == old(self).route_backs().after_eviction(now).insert(
                older_count(old(self).route_backs().after_eviction(now), now) as int,
                RouteBack { time: now, hash: hash@, peer: peer_id@ },
            ),
            holds_hash(final(self).route_backs()@, hash@),
            final(self).route_backs()@ == old(self).route_backs().after_insert(
                hash@,
                peer_id@,
                now,
            ),
            added ==> final(self).route_backs()@[place_of(final(self).route_backs()@, hash@)] == (
            RouteBack { time: now, hash: hash@, peer: peer_id@ }),
    {
        self.route_back.insert(hash, peer_id, now)
    }

    /// The peer that the message with the hash `hash` came from; the route
    /// back is taken out of the cache.
    fn fetch_route_back(&mut self, hash: &CryptoHash, now: u64) -> (peer: Option<PeerId>)
        requires
            old(self).wf(),
        ensures
            final(self).wf(),
            final(self).route_backs().wf(),
            final(self).route_backs().same_limits(old(self).route_backs()),
            final(self).same_but_route_back(*old(self)),
            peer.is_some() == holds_hash(old(self).route_backs().after_eviction(now), hash@),
            peer matches Some(p) ==> p@ == old(self).route_backs().after_eviction(now)[place_of(
                old(self).route_backs().after_eviction(now),
                hash@,
            )].peer && final(self).route_backs()@ == old(self).route_backs().after_eviction(now).remove(
                place_of(old(self).route_backs().after_eviction(now), hash@),
            ),
            peer is None ==> final(self).route_backs()@ == old(self).route_backs().after_eviction(now),
            !holds_hash(final(self).route_backs()@, hash@),
    {
        self.route_back.remove(hash, now)
    }

    /// Whether the message with the hash `hash` came from `peer_id`.
    pub fn compare_route_back(&self, hash: &CryptoHash, peer_id: &PeerId) -> (same: bool)
        ensures
            same == (holds_hash(self.route_backs()@, hash@) && self.route_backs()@[place_of(
                self.route_backs()@,
                hash@,
            )].peer == peer_id@),
    {
        match self.route_back.get(hash) {
            Some(peer) => peer.same(peer_id),
            None => false,
        }
    }

    /// The edge kept for the pair of `peer0` and `peer1`, one of which is
    /// this peer.
    pub fn get_edge(&self, peer0: PeerId, peer1: PeerId) -> (edge: Option<&Edge>)
        requires
            peer0@ == self.me() || peer1@ == self.me(),
        ensures
            edge.is_some() == self.local_edges().has(key_of(peer0@, peer1@)),
            edge matches Some(e) ==> *e == self.local_edges().value(key_of(peer0@, peer1@)),
    {
        let key = Edge::make_key(peer0, peer1);
        self.local_edges_info.get(&key)
    }

    /// Keeps the announcement of an account, in the place of the one kept for
    /// the account before. Nothing is written to a store: that is left to
    /// the caller.
    pub fn add_account(&mut self, announce_account: AnnounceAccount)
        requires
            old(self).wf(),
        ensures
            final(self).wf(),
            final(self).same_but_accounts(*old(self)),
            final(self).accounts() == lru_put(
                old(self).accounts(),
                ANNOUNCE_ACCOUNT_CACHE_SIZE,
                announce_account.account_id@,
                announce_account@,
            ),
    {
        let key = bytes_copy(announce_account.account_id.as_bytes());
        announces_set(&mut self.account_peers, key, announce_account);
    }

    /// The announcement kept for `account_id`, if there is one; it then
    /// counts as the one used most recently. No store is asked.
    pub fn get_announce(&mut self, account_id: &AccountId) -> (announce: Option<AnnounceAccount>)
        requires
            old(self).wf(),
        ensures
            final(self).wf(),
            final(self).same_but_accounts(*old(self)),
            final(self).accounts() == lru_touched(old(self).accounts(), account_id@),
            announce.is_some() == lru_has(old(self).accounts(), account_id@),
            announce matches Some(a) ==> Some(a@) == lru_value(old(self).accounts(), account_id@),
    {
        announces_get(&mut self.account_peers, account_id.as_bytes())
    }

    /// Keeps an announcement that was loaded from a store, and hands it
    /// back; where none was loaded nothing changes.
    pub fn announce_loaded(&mut self, loaded: Option<AnnounceAccount>) -> (announce: Option<
        AnnounceAccount,
    >)
        requires
            old(self).wf(),
        ensures
            final(self).wf(),
            final(self).same_but_accounts(*old(self)),
            match loaded {
                Some(found) => announce is Some && announce.unwrap()@ == found@ && final(self).accounts() == lru_put(
                    old(self).accounts(),
                    ANNOUNCE_ACCOUNT_CACHE_SIZE,
                    found.account_id@,
                    found@,
                ),
                None => announce is None && final(self).accounts() == old(self).accounts(),
            },
    {
        match loaded {
            Some(found) => {
                self.add_account(found.clone());
                Some(found)
            },
            None => None,
        }
    }

    /// The peer of the owner of an account, by the announcement found for
    /// the account; the account is not found where there is none.
    pub fn owner_of(announce: Option<AnnounceAccount>) -> (owner: Result<PeerId, FindRouteError>)
        ensures
            match announce {
                Some(found) => owner is Ok && owner.unwrap()@ == found@.peer_id,
                None => owner == Err::<PeerId, FindRouteError>(FindRouteError::AccountNotFound),
            },
    {
        match announce {
            Some(found) => Ok(found.peer_id),
            None => Err(FindRouteError::AccountNotFound),
        }
    }

    /// Whether the announcement found for an account, if there is one, is
    /// for the epoch of `announce_account`.
    pub fn same_epoch(current: Option<AnnounceAccount>, announce_account: &AnnounceAccount) -> (same:
        bool)
        ensures
            same == (current matches Some(found) && found@.epoch_id == announce_account@.epoch_id),
    {
        match current {
            Some(found) => found.epoch_id.same(&announce_account.epoch_id),
            None => false,
        }
    }

    /// The peer of the owner of `account_id`, by the announcement kept for
    /// the account.
    pub fn account_owner(&mut self, account_id: &AccountId) -> (owner: Result<PeerId, FindRouteError>)
        requires
            old(self).wf(),
        ensures
            final(self).wf(),
            final(self).same_but_accounts(*old(self)),
            final(self).accounts() == lru_touched(old(self).accounts(), account_id@),
            owner is Ok == lru_has(old(self).accounts(), account_id@),
            owner matches Ok(peer) ==> peer@ == lru_value(
                old(self).accounts(),
                account_id@,
            ).unwrap().peer_id,
            owner matches Err(e) ==> e == FindRouteError::AccountNotFound,
    {
        let found = self.get_announce(account_id);
        Self::owner_of(found)
    }

    /// Whether an announcement of the same account for the same epoch is
    /// kept.
    pub fn contains_account(&mut self, announce_account: &AnnounceAccount) -> (known: bool)
        requires
            old(self).wf(),
        ensures
            final(self).wf(),
            final(self).same_but_accounts(*old(self)),
            final(self).accounts() == lru_touched(
                old(self).accounts(),
                announce_account.account_id@,
            ),
            known == (lru_has(old(self).accounts(), announce_account.account_id@) && lru_value(
                old(self).accounts(),
                announce_account.account_id@,
            ).unwrap().epoch_id == announce_account.epoch_id@),
    {
        let current = self.get_announce(&announce_account.account_id);
        Self::same_epoch(current, announce_account)
    }

    /// The accounts of which an announcement is kept, from the most to the
    /// least recently used.
    pub fn get_accounts_keys(&self) -> (keys: Vec<AccountId>)
        ensures
            keys@.len() == self.accounts().len(),
            forall|i: int| 0 <= i < keys@.len() ==> (#[trigger] keys@[i])@ == self.accounts()[i].0,
    {
        let names = announces_keys(&self.account_peers);
        let mut keys: Vec<AccountId> = Vec::new();
        let mut i: usize = 0;
        while i < names.len()
            invariant
                i <= names@.len(),
                keys@.len() == i,
                forall|j: int| 0 <= j < i ==> (#[trigger] keys@[j])@ == names@[j]@,
            decreases names@.len() - i,
        {
            keys.push(AccountId::new(bytes_copy(&names[i])));
            i += 1;
        }
        keys
    }

    /// The announcements kept, from the most to the least recently used.
    pub fn get_announce_accounts(&self) -> (announces: Vec<AnnounceAccount>)
        ensures
            announce_views(announces@) == Seq::new(
                self.accounts().len(),
                |i: int| self.accounts()[i].1,
            ),
    {
        announces_values(&self.account_peers)
    }

    /// How many announcements are kept.
    pub fn get_announce_accounts_size(&self) -> (size: usize)
        ensures
            size == self.accounts().len(),
    {
        announces_size(&self.account_peers)
    }

    /// What the table tells about itself: the owner's peer for each account
    /// known, and the next hops. Of two announcements for one account the one
    /// used less recently counts.
    pub fn info(&self) -> (info: RoutingTableInfo)
        ensures
            *info.peer_forwarding == self.forwarding(),
            forall|account: Seq<u8>|
                info.account_peers.has(account) <==> exists|i: int|
                    0 <= i < self.accounts().len() && (#[trigger] self.accounts()[i]).1.account_id
                        == account,
            forall|i: int|
                0 <= i < self.accounts().len() && (forall|j: int|
                    i < j < self.accounts().len() ==> (#[trigger] self.accounts()[j]).1.account_id
                        != self.accounts()[i].1.account_id) ==> info.account_peers.value(
                    (#[trigger] self.accounts()[i]).1.account_id,
                )@ == self.accounts()[i].1.peer_id,
    {
        let announces = self.get_announce_accounts();
        let ghost all = announce_views(announces@);
        let mut account_peers: VecMap<AccountId, PeerId> = VecMap::new();
        let mut k: usize = 0;
        while k < announces.len()
            invariant
                k <= announces@.len(),
                all == announce_views(announces@),
                forall|account: Seq<u8>|
                    account_peers.has(account) <==> exists|i: int|
                        0 <= i < k && (#[trigger] all[i]).account_id == account,
                forall|i: int|
                    0 <= i < k && (forall|j: int|
                        i < j < k ==> (#[trigger] all[j]).account_id != all[i].account_id)
                        ==> account_peers.value((#[trigger] all[i]).account_id)@ == all[i].peer_id,
            decreases announces@.len() - k,
        {
            let ghost before = account_peers;
            let account = announces[k].account_id.clone();
            let peer = announces[k].peer_id.dup();
            account_peers.insert(account, peer);
            proof {
                let here = all[k as int];
                assert(here == announces@[k as int]@);
                assert forall|account: Seq<u8>|
                    account_peers.has(account) <==> exists|i: int|
                        0 <= i < k + 1 && (#[trigger] all[i]).account_id == account by {
                    if account == here.account_id {
                        assert(all[k as int].account_id == account);
                    } else {
                        if before.has(account) {
                            let i = choose|i: int|
                                0 <= i < k && (#[trigger] all[i]).account_id == account;
                            assert(0 <= i < k + 1 && all[i].account_id == account);
                        }
                        if exists|i: int| 0 <= i < k + 1 && (#[trigger] all[i]).account_id == account {
                            let i = choose|i: int|
                                0 <= i < k + 1 && (#[trigger] all[i]).account_id == account;
                            assert(i < k);
                        }
                    }
                }
                assert forall|i: int|
                    0 <= i < k + 1 && (forall|j: int|
                        i < j < k + 1 ==> (#[trigger] all[j]).account_id != all[i].account_id)
                    implies account_peers.value((#[trigger] all[i]).account_id)@ == all[i].peer_id by {
                    if i < k {
                        assert(all[k as int].account_id != all[i].account_id);
                        assert(before.has(all[i].account_id));
                        assert forall|j: int| i < j < k implies (#[trigger] all[j]).account_id
                            != all[i].account_id by {}
                    }
                }
            }
            k += 1;
        }
        proof {
            let listed = Seq::new(self.accounts().len(), |i: int| self.accounts()[i].1);
            assert(all == listed);
            assert(all.len() == self.accounts().len());
            assert forall|i: int| 0 <= i < self.accounts().len() implies (
            #[trigger] self.accounts()[i]).1 == all[i] by {
                assert(listed[i] == self.accounts()[i].1);
            }
            assert forall|account: Seq<u8>|
                account_peers.has(account) <==> exists|i: int|
                    0 <= i < self.accounts().len() && (#[trigger] self.accounts()[i]).1.account_id
                        == account by {
                if account_peers.has(account) {
                    let i = choose|i: int| 0 <= i < k && (#[trigger] all[i]).account_id == account;
                    assert(self.accounts()[i].1.account_id == account);
                }
                if exists|i: int|
                    0 <= i < self.accounts().len() && (#[trigger] self.accounts()[i]).1.account_id
                        == account {
                    let i = choose|i: int|
                        0 <= i < self.accounts().len() && (
                        #[trigger] self.accounts()[i]).1.account_id == account;
                    assert(all[i].account_id == account);
                }
            }
            assert forall|i: int|
                0 <= i < self.accounts().len() && (forall|j: int|
                    i < j < self.accounts().len() ==> (#[trigger] self.accounts()[j]).1.account_id
                        != self.accounts()[i].1.account_id) implies account_peers.value(
                (#[trigger] self.accounts()[i]).1.account_id,
            )@ == self.accounts()[i].1.peer_id by {
                assert forall|j: int| i < j < k implies (#[trigger] all[j]).account_id
                    != all[i].account_id by {
                    assert(self.accounts()[j].1.account_id != self.accounts()[i].1.account_id);
                }
                assert(all[i].account_id == self.accounts()[i].1.account_id);
            }
        }
        RoutingTableInfo { account_peers, peer_forwarding: share_forwarding(&self.peer_forwarding) }
    }

    /// Counts a ping: under its nonce the ping is kept with the number of
    /// times it has come.
    pub fn add_ping(&mut self, ping: Ping)
        requires
            old(self).wf(),
        ensures
            final(self).wf(),
            final(self).same_but_pings(*old(self)),
            final(self).pongs() == old(self).pongs(),
            final(self).ping_nonces() == old(self).ping_nonces(),
            final(self).waiting() == old(self).waiting(),
            final(self).pings() == echo_counted(
                old(self).pings(),
                PING_PONG_CACHE_SIZE,
                ping.nonce,
                ping.source@,
            ),
    {
        let key = ping.nonce as usize;
        let cnt: usize = match echoes_count(&mut self.ping_info, key) {
            Some(n) => n,
            None => 0,
        };
        let next: usize = if cnt < usize::MAX {
            cnt + 1
        } else {
            cnt
        };
        echoes_set(&mut self.ping_info, key, (ping.nonce, ping.source, next));
    }

    /// Notes that a ping with the nonce `nonce` is sent to `target` at the
    /// time `now`. For each target the times of the last 10 pings are kept.
    pub fn sending_ping(&mut self, nonce: usize, target: PeerId, now: u64)
        requires
            old(self).wf(),
        ensures
            final(self).wf(),
            final(self).same_but_pings(*old(self)),
            final(self).pings() == old(self).pings(),
            final(self).pongs() == old(self).pongs(),
            final(self).ping_nonces() == old(self).ping_nonces(),
            final(self).waiting() == ping_sent(
                old(self).waiting(),
                PING_PONG_CACHE_SIZE,
                target@,
                nonce,
                now,
            ),
    {
        let ghost before = waiting_entries(self.waiting_pong);
        match waiting_get_mut(&mut self.waiting_pong, target.as_bytes()) {
            Some(times) => {
                sent_set(times, nonce, now);
            },
            None => {
                let fresh = sent_with_size(WAITING_PONG_CACHE_SIZE);
                waiting_set(&mut self.waiting_pong, bytes_copy(target.as_bytes()), fresh);
                proof {
                    lemma_put_holds(
                        before,
                        PING_PONG_CACHE_SIZE,
                        target@,
                        (WAITING_PONG_CACHE_SIZE, Seq::<(usize, u64)>::empty()),
                    );
                }
                match waiting_get_mut(&mut self.waiting_pong, target.as_bytes()) {
                    Some(times) => {
                        sent_set(times, nonce, now);
                    },
                    None => {},
                }
            },
        }
    }

    /// Counts a pong that comes at the time `now`: under its nonce the pong
    /// is kept with the number of times it has come. Returns the time since
    /// the ping that it answers was sent, if that ping is still waited for;
    /// it then is waited for no more.
    pub fn add_pong(&mut self, pong: Pong, now: u64) -> (elapsed: Option<u64>)
        requires
            old(self).wf(),
        ensures
            final(self).wf(),
            final(self).same_but_pings(*old(self)),
            final(self).pings() == old(self).pings(),
            final(self).ping_nonces() == old(self).ping_nonces(),
            elapsed == round_trip(old(self).waiting(), pong.source@, pong.nonce as usize, now),
            final(self).waiting() == pong_came(
                old(self).waiting(),
                pong.source@,
                pong.nonce as usize,
            ),
            final(self).pongs() == echo_counted(
                old(self).pongs(),
                PING_PONG_CACHE_SIZE,
                pong.nonce,
                pong.source@,
            ),
    {
        let key = pong.nonce as usize;
        let sent = match waiting_get_mut(&mut self.waiting_pong, pong.source.as_bytes()) {
            Some(times) => sent_remove(times, key),
            None => None,
        };
        let elapsed = match sent {
            Some(time) => Some(if now >= time {
                now - time
            } else {
                0
            }),
            None => None,
        };
        let cnt: usize = match echoes_count(&mut self.pong_info, key) {
            Some(n) => n,
            None => 0,
        };
        let next: usize = if cnt < usize::MAX {
            cnt + 1
        } else {
            cnt
        };
        echoes_set(&mut self.pong_info, key, (pong.nonce, pong.source, next));
        elapsed
    }

    /// The nonce for the next ping to `peer_id`: 0 for the first ping, and
    /// one more with each ping after.
    pub fn get_ping(&mut self, peer_id: PeerId) -> (nonce: usize)
        requires
            old(self).wf(),
        ensures
            final(self).wf(),
            final(self).same_but_pings(*old(self)),
            final(self).pings() == old(self).pings(),
            final(self).pongs() == old(self).pongs(),
            final(self).waiting() == old(self).waiting(),
            nonce == count_of(old(self).ping_nonces(), peer_id@),
            final(self).ping_nonces() == (if lru_has(old(self).ping_nonces(), peer_id@) {
                lru_touched(old(self).ping_nonces(), peer_id@).update(
                    0,
                    (peer_id@, bumped(Some(nonce))),
                )
            } else {
                lru_put(old(self).ping_nonces(), PING_PONG_CACHE_SIZE, peer_id@, 1)
            }),
    {
        match counters_get_mut(&mut self.last_ping_nonce, peer_id.as_bytes()) {
            Some(entry) => {
                let n = *entry;
                if n < usize::MAX {
                    *entry = n + 1;
                }
                n
            },
            None => {
                counters_set(&mut self.last_ping_nonce, bytes_copy(peer_id.as_bytes()), 1);
                0
            },
        }
    }

    /// The pings and the pongs received, each with its nonce and the number
    /// of times it has come, from the most to the least recently used.
    pub fn fetch_ping_pong(&self) -> (both: (Vec<(usize, (Ping, usize))>, Vec<(usize, (Pong, usize))>))
        ensures
            both.0@.len() == self.pings().len(),
            forall|i: int|
                0 <= i < both.0@.len() ==> ((#[trigger] both.0@[i]).0, (
                    both.0@[i].1.0.nonce,
                    both.0@[i].1.0.source@,
                    both.0@[i].1.1,
                )) == self.pings()[i],
            both.1@.len() == self.pongs().len(),
            forall|i: int|
                0 <= i < both.1@.len() ==> ((#[trigger] both.1@[i]).0, (
                    both.1@[i].1.0.nonce,
                    both.1@[i].1.0.source@,
                    both.1@[i].1.1,
                )) == self.pongs()[i],
    {
        let ping_list = echoes_list(&self.ping_info);
        let pong_list = echoes_list(&self.pong_info);
        let mut pings: Vec<(usize, (Ping, usize))> = Vec::new();
        let mut pongs: Vec<(usize, (Pong, usize))> = Vec::new();
        let mut i: usize = 0;
        while i < ping_list.len()
            invariant
                i <= ping_list@.len(),
                pings@.len() == i,
                forall|j: int|
                    0 <= j < i ==> ((#[trigger] pings@[j]).0, (
                        pings@[j].1.0.nonce,
                        pings@[j].1.0.source@,
                        pings@[j].1.1,
                    )) == (ping_list@[j].0, (ping_list@[j].1.0, ping_list@[j].1.1@, ping_list@[j].1.2)),
            decreases ping_list@.len() - i,
        {
            let ping = Ping { nonce: ping_list[i].1.0, source: ping_list[i].1.1.dup() };
            pings.push((ping_list[i].0, (ping, ping_list[i].1.2)));
            i += 1;
        }
        let mut k: usize = 0;
        while k < pong_list.len()
            invariant
                k <= pong_list@.len(),
                pongs@.len() == k,
                forall|j: int|
                    0 <= j < k ==> ((#[trigger] pongs@[j]).0, (
                        pongs@[j].1.0.nonce,
                        pongs@[j].1.0.source@,
                        pongs@[j].1.1,
                    )) == (pong_list@[j].0, (pong_list@[j].1.0, pong_list@[j].1.1@, pong_list@[j].1.2)),
            decreases pong_list@.len() - k,
        {
            let pong = Pong { nonce: pong_list[k].1.0, source: pong_list[k].1.1.dup() };
            pongs.push((pong_list[k].0, (pong, pong_list[k].1.2)));
            k += 1;
        }
        (pings, pongs)
    }

    /// Forgets the edges kept for the pairs of the edges given. This peer is
    /// one of the two peers of each of them.
    pub fn remove_edges(&mut self, edges: &Vec<Edge>)
        requires
            forall|i: int|
                0 <= i < edges@.len() ==> (#[trigger] edges@[i])@.key.0 == old(self).me()
                    || edges@[i]@.key.1 == old(self).me(),
        ensures
            final(self).wf() == old(self).wf(),
            final(self).me() == old(self).me(),
            final(self).route_nonces() == old(self).route_nonces(),
            final(self).accounts() == old(self).accounts(),
            final(self).route_backs() == old(self).route_backs(),
            final(self).forwarding() == old(self).forwarding(),
            forall|key: (Seq<u8>, Seq<u8>)|
                final(self).local_edges().has(key) == (old(self).local_edges().has(key)
                    && !exists|i: int| 0 <= i < edges@.len() && (#[trigger] edges@[i])@.key == key),
            forall|key: (Seq<u8>, Seq<u8>)|
                final(self).local_edges().has(key) ==> final(self).local_edges().value(key)
                    == old(self).local_edges().value(key),
    {
        let mut i: usize = 0;
        while i < edges.len()
            invariant
                i <= edges@.len(),
                self.my_peer_id == old(self).my_peer_id,
                self.account_peers == old(self).account_peers,
                self.peer_forwarding == old(self).peer_forwarding,
                self.route_back == old(self).route_back,
                self.route_nonce == old(self).route_nonce,
                self.ping_info == old(self).ping_info,
                self.pong_info == old(self).pong_info,
                self.last_ping_nonce == old(self).last_ping_nonce,
                self.waiting_pong == old(self).waiting_pong,
                forall|key: (Seq<u8>, Seq<u8>)|
                    self.local_edges_info.has(key) == (old(self).local_edges_info.has(key)
                        && !exists|j: int| 0 <= j < i && (#[trigger] edges@[j])@.key == key),
                forall|key: (Seq<u8>, Seq<u8>)|
                    self.local_edges_info.has(key) ==> self.local_edges_info.value(key) == old(self).local_edges_info.value(key),
            decreases edges@.len() - i,
        {
            let edge = edges[i].inner();
            let key = (edge.key.0.dup(), edge.key.1.dup());
            let ghost before = self.local_edges_info;
            self.local_edges_info.remove(&key);
            proof {
                assert(key@ == edges@[i as int]@.key);
                assert forall|k: (Seq<u8>, Seq<u8>)|
                    self.local_edges_info.has(k) == (old(self).local_edges_info.has(k)
                        && !exists|j: int| 0 <= j < i + 1 && (#[trigger] edges@[j])@.key == k) by {
                    if k == key@ {
                        assert(edges@[i as int]@.key == k);
                    } else {
                        assert(self.local_edges_info.has(k) == before.has(k));
                        if exists|j: int| 0 <= j < i + 1 && (#[trigger] edges@[j])@.key == k {
                            let j = choose|j: int| 0 <= j < i + 1 && (#[trigger] edges@[j])@.key == k;
                            assert(j < i);
                        }
                    }
                }
            }
            i += 1;
        }
    }
}

} // verus!
