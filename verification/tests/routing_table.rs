use peer_routing::announce::{AccountId, AnnounceAccount};
use peer_routing::edge::Edge;
use peer_routing::graph::Graph;
use peer_routing::keys::{CryptoHash, KeyType, PeerId, PublicKey, Signature};
use peer_routing::routing_table::{
    FindRouteError, PeerIdOrHash, Ping, Pong, RoutingTableView, ANNOUNCE_ACCOUNT_CACHE_SIZE,
    DELETE_PEERS_AFTER_TIME, PING_PONG_CACHE_SIZE, ROUND_ROBIN_NONCE_CACHE_SIZE,
    ROUTE_BACK_CACHE_EVICT_TIMEOUT, ROUTE_BACK_CACHE_REMOVE_BATCH, ROUTE_BACK_CACHE_SIZE,
    SAVE_PEERS_MAX_TIME, WAITING_PONG_CACHE_SIZE,
};
use peer_routing::round_robin::ROUND_ROBIN_MAX_NONCE_DIFFERENCE_ALLOWED;
use peer_routing::vec_map::VecMap;
use std::sync::Arc;

fn table_peer(n: u32) -> PeerId {
    let mut bytes = vec![0u8; 33];
    bytes[1..5].copy_from_slice(&n.to_be_bytes());
    PeerId::new(PublicKey::from_bytes(bytes).unwrap())
}

fn table_hash(n: u8) -> CryptoHash {
    CryptoHash::from_bytes(vec![n; 32]).unwrap()
}

fn table_announce(account: &str, peer: u32, epoch: u8) -> AnnounceAccount {
    AnnounceAccount {
        account_id: AccountId::new(account.as_bytes().to_vec()),
        peer_id: table_peer(peer),
        epoch_id: table_hash(epoch),
        signature: Signature::empty(KeyType::ED25519),
    }
}

fn forwarding(rows: Vec<(PeerId, Vec<PeerId>)>) -> Arc<VecMap<PeerId, Vec<PeerId>>> {
    let mut table = VecMap::new();
    for (peer, hops) in rows {
        table.insert(peer, hops);
    }
    Arc::new(table)
}

#[test]
fn constants_have_their_values() {
    assert_eq!(ANNOUNCE_ACCOUNT_CACHE_SIZE, 10_000);
    assert_eq!(ROUTE_BACK_CACHE_SIZE, 100_000);
    assert_eq!(ROUTE_BACK_CACHE_EVICT_TIMEOUT, 120_000);
    assert_eq!(ROUTE_BACK_CACHE_REMOVE_BATCH, 100);
    assert_eq!(PING_PONG_CACHE_SIZE, 1_000);
    assert_eq!(ROUND_ROBIN_MAX_NONCE_DIFFERENCE_ALLOWED, 10);
    assert_eq!(ROUND_ROBIN_NONCE_CACHE_SIZE, 10_000);
    assert_eq!(SAVE_PEERS_MAX_TIME, 7_200);
    assert_eq!(DELETE_PEERS_AFTER_TIME, 3_600);
}

#[test]
fn unknown_and_disconnected_peers_have_no_route() {
    let mut table = RoutingTableView::new(table_peer(0));
    assert_eq!(table.my_peer_id(), &table_peer(0));
    assert_eq!(
        table.find_route_from_peer_id(&table_peer(1)),
        Err(FindRouteError::PeerNotFound)
    );
    table.set_peer_forwarding(forwarding(vec![(table_peer(1), vec![])]));
    assert_eq!(
        table.find_route_from_peer_id(&table_peer(1)),
        Err(FindRouteError::Disconnected)
    );
    assert_eq!(
        table.find_route(&PeerIdOrHash::PeerId(table_peer(2)), 0),
        Err(FindRouteError::PeerNotFound)
    );
    assert_eq!(table.reachable_peers(), vec![table_peer(1)]);
}

#[test]
fn round_robin_takes_the_hops_in_turn() {
    let mut table = RoutingTableView::new(table_peer(0));
    let hops = vec![table_peer(3), table_peer(1), table_peer(2)];
    table.set_peer_forwarding(forwarding(vec![(table_peer(9), hops.clone())]));
    let mut chosen = Vec::new();
    for _ in 0..30 {
        chosen.push(table.find_route(&PeerIdOrHash::PeerId(table_peer(9)), 0).unwrap());
    }
    // of equal counters the smallest peer goes first
    assert_eq!(&chosen[..6], &[
        table_peer(1),
        table_peer(2),
        table_peer(3),
        table_peer(1),
        table_peer(2),
        table_peer(3)
    ]);
    for hop in hops.iter() {
        let count = chosen.iter().filter(|peer| *peer == hop).count();
        assert!(count >= 8);
        assert_eq!(count, 10);
    }
}

#[test]
fn a_hop_far_behind_is_lifted_to_ten_below_the_top() {
    let mut table = RoutingTableView::new(table_peer(0));
    let (a, b) = (table_peer(1), table_peer(2));
    table.set_peer_forwarding(forwarding(vec![
        (table_peer(8), vec![a.clone()]),
        (table_peer(9), vec![a.clone(), b.clone()]),
    ]));
    for _ in 0..20 {
        assert_eq!(table.find_route_from_peer_id(&table_peer(8)), Ok(a.clone()));
    }
    // a has been used 20 times and b never: b is lifted to 10 and then used,
    // so that it is taken 10 times in a row, up to 20, and not 20 times
    let mut in_a_row = 0;
    while table.find_route_from_peer_id(&table_peer(9)) == Ok(b.clone()) {
        in_a_row += 1;
        assert!(in_a_row <= 30);
    }
    assert_eq!(in_a_row, 10);
    // now a has been used 21 times and b 20 times
    assert_eq!(table.find_route_from_peer_id(&table_peer(9)), Ok(b.clone()));
    assert_eq!(table.find_route_from_peer_id(&table_peer(9)), Ok(a.clone()));
}

#[test]
fn a_hop_ten_behind_is_not_lifted() {
    let mut table = RoutingTableView::new(table_peer(0));
    let (a, b) = (table_peer(1), table_peer(2));
    table.set_peer_forwarding(forwarding(vec![
        (table_peer(8), vec![a.clone()]),
        (table_peer(9), vec![a.clone(), b.clone()]),
    ]));
    for _ in 0..10 {
        assert_eq!(table.find_route_from_peer_id(&table_peer(8)), Ok(a.clone()));
    }
    let mut in_a_row = 0;
    while table.find_route_from_peer_id(&table_peer(9)) == Ok(b.clone()) {
        in_a_row += 1;
        assert!(in_a_row <= 30);
    }
    assert_eq!(in_a_row, 10);
}

#[test]
fn route_back_is_used_once() {
    let mut table = RoutingTableView::new(table_peer(0));
    assert!(table.add_route_back(table_hash(1), table_peer(5), 10));
    assert!(table.compare_route_back(&table_hash(1), &table_peer(5)));
    assert!(!table.compare_route_back(&table_hash(1), &table_peer(6)));
    assert!(!table.compare_route_back(&table_hash(2), &table_peer(5)));
    assert!(!table.add_route_back(table_hash(1), table_peer(6), 11));
    assert_eq!(table.route_back().len(), 1);
    assert_eq!(table.find_route(&PeerIdOrHash::Hash(table_hash(1)), 12), Ok(table_peer(5)));
    assert_eq!(
        table.find_route(&PeerIdOrHash::Hash(table_hash(1)), 13),
        Err(FindRouteError::RouteBackNotFound)
    );
    assert_eq!(table.route_back().len(), 0);
}

#[test]
fn route_back_expires() {
    let mut table = RoutingTableView::new(table_peer(0));
    assert!(table.add_route_back(table_hash(1), table_peer(5), 0));
    assert_eq!(
        table.find_route(&PeerIdOrHash::Hash(table_hash(1)), 120_001),
        Err(FindRouteError::RouteBackNotFound)
    );
    assert!(table.add_route_back(table_hash(2), table_peer(5), 200_000));
    assert_eq!(table.find_route(&PeerIdOrHash::Hash(table_hash(2)), 320_000), Ok(table_peer(5)));
}

#[test]
fn accounts_are_found_by_their_announcements() {
    let mut table = RoutingTableView::new(table_peer(0));
    let alice = AccountId::new(b"alice.near".to_vec());
    let bob = AccountId::new(b"bob.near".to_vec());
    assert_eq!(table.account_owner(&alice), Err(FindRouteError::AccountNotFound));
    assert_eq!(table.get_announce(&alice), None);
    assert_eq!(table.get_announce_accounts_size(), 0);
    table.add_account(table_announce("alice.near", 1, 7));
    table.add_account(table_announce("bob.near", 2, 7));
    assert_eq!(table.get_announce_accounts_size(), 2);
    assert_eq!(table.account_owner(&alice), Ok(table_peer(1)));
    assert_eq!(table.account_owner(&bob), Ok(table_peer(2)));
    assert_eq!(table.get_announce(&bob), Some(table_announce("bob.near", 2, 7)));
    assert!(table.contains_account(&table_announce("alice.near", 3, 7)));
    assert!(!table.contains_account(&table_announce("alice.near", 1, 8)));
    assert!(!table.contains_account(&table_announce("carol.near", 1, 7)));
    // the account looked up last comes first
    assert_eq!(table.get_accounts_keys(), vec![alice.clone(), bob.clone()]);
    table.add_account(table_announce("alice.near", 4, 9));
    assert_eq!(table.get_announce_accounts_size(), 2);
    assert_eq!(table.account_owner(&alice), Ok(table_peer(4)));
    assert_eq!(
        table.get_announce_accounts(),
        vec![table_announce("alice.near", 4, 9), table_announce("bob.near", 2, 7)]
    );
    let info = table.info();
    assert_eq!(info.account_peers.len(), 2);
    assert_eq!(info.account_peers.get(&alice), Some(&table_peer(4)));
    assert_eq!(info.account_peers.get(&bob), Some(&table_peer(2)));
    assert_eq!(info.peer_forwarding.len(), 0);
}

#[test]
fn the_account_used_least_recently_leaves_a_full_cache() {
    let mut table = RoutingTableView::new(table_peer(0));
    for n in 0..ANNOUNCE_ACCOUNT_CACHE_SIZE {
        table.add_account(table_announce(&format!("account{}", n), n as u32, 1));
    }
    assert_eq!(table.get_announce_accounts_size(), ANNOUNCE_ACCOUNT_CACHE_SIZE);
    let first = AccountId::new(b"account0".to_vec());
    let second = AccountId::new(b"account1".to_vec());
    assert_eq!(table.account_owner(&first), Ok(table_peer(0)));
    table.add_account(table_announce("one-more", 5, 1));
    assert_eq!(table.get_announce_accounts_size(), ANNOUNCE_ACCOUNT_CACHE_SIZE);
    assert_eq!(table.account_owner(&second), Err(FindRouteError::AccountNotFound));
    assert_eq!(table.account_owner(&first), Ok(table_peer(0)));
}

#[test]
fn info_shares_the_table_of_next_hops() {
    let mut table = RoutingTableView::new(table_peer(0));
    let shared = forwarding(vec![(table_peer(1), vec![table_peer(1)])]);
    table.set_peer_forwarding(shared.clone());
    let info = table.info();
    assert!(Arc::ptr_eq(&info.peer_forwarding, &shared));
    assert!(Arc::ptr_eq(table.peer_forwarding(), &shared));
    assert_eq!(info.peer_forwarding.get(&table_peer(1)), Some(&vec![table_peer(1)]));
}

#[test]
fn pings_and_pongs_are_counted() {
    let mut table = RoutingTableView::new(table_peer(0));
    table.add_ping(Ping { nonce: 7, source: table_peer(1) });
    table.add_ping(Ping { nonce: 7, source: table_peer(2) });
    table.add_ping(Ping { nonce: 8, source: table_peer(3) });
    assert_eq!(table.add_pong(Pong { nonce: 7, source: table_peer(4) }, 0), None);
    let (pings, pongs) = table.fetch_ping_pong();
    assert_eq!(pings.len(), 2);
    assert_eq!(pongs.len(), 1);
    let seven = pings.iter().find(|entry| entry.0 == 7).unwrap();
    assert_eq!(seven.1 .0.nonce, 7);
    assert_eq!(seven.1 .0.source, table_peer(2));
    assert_eq!(seven.1 .1, 2);
    let eight = pings.iter().find(|entry| entry.0 == 8).unwrap();
    assert_eq!(eight.1 .0.source, table_peer(3));
    assert_eq!(eight.1 .1, 1);
    // the ping counted last comes first
    assert_eq!(pings[0].0, 8);
    assert_eq!(pongs[0].0, 7);
    assert_eq!(pongs[0].1 .0.source, table_peer(4));
    assert_eq!(pongs[0].1 .1, 1);
}

#[test]
fn ping_nonces_count_up_from_zero() {
    let mut table = RoutingTableView::new(table_peer(0));
    assert_eq!(table.get_ping(table_peer(1)), 0);
    assert_eq!(table.get_ping(table_peer(1)), 1);
    assert_eq!(table.get_ping(table_peer(2)), 0);
    assert_eq!(table.get_ping(table_peer(1)), 2);
    assert_eq!(table.get_ping(table_peer(2)), 1);
}

#[test]
fn ping_nonce_of_the_peer_used_least_recently_is_forgotten() {
    let mut table = RoutingTableView::new(table_peer(0));
    for n in 0..PING_PONG_CACHE_SIZE as u32 {
        assert_eq!(table.get_ping(table_peer(n)), 0);
    }
    assert_eq!(table.get_ping(table_peer(0)), 1);
    assert_eq!(table.get_ping(table_peer(5_000)), 0);
    // peer 1 was the one used least recently: its nonce begins again
    assert_eq!(table.get_ping(table_peer(1)), 0);
    assert_eq!(table.get_ping(table_peer(0)), 2);
}

#[test]
fn local_edges_are_kept_by_pair() {
    let me = table_peer(5);
    let mut table = RoutingTableView::new(me.clone());
    let key = Edge::make_key(me.clone(), table_peer(1));
    // while no edge is kept for the pair every edge is newer
    assert!(table.is_local_edge_newer(&key, 1));
    assert!(table.is_local_edge_newer(&key, 0));
    assert!(table.get_edge(me.clone(), table_peer(1)).is_none());
    table.add_local_edge(Edge::new(
        me.clone(),
        table_peer(1),
        3,
        Signature::empty(KeyType::ED25519),
        Signature::empty(KeyType::ED25519),
    ));
    table.add_local_edge(Edge::make_fake_edge(me.clone(), table_peer(9), 1));
    assert_eq!(table.local_edges_info().len(), 2);
    assert!(!table.is_local_edge_newer(&key, 3));
    assert!(table.is_local_edge_newer(&key, 4));
    assert_eq!(table.get_edge(table_peer(1), me.clone()).unwrap().inner().nonce, 3);
    assert_eq!(table.get_edge(me.clone(), table_peer(1)).unwrap().inner().nonce, 3);
    assert!(table.get_edge(me.clone(), table_peer(2)).is_none());
    table.remove_edges(&vec![Edge::make_fake_edge(table_peer(1), me.clone(), 8)]);
    assert!(table.get_edge(me.clone(), table_peer(1)).is_none());
    assert!(table.get_edge(me.clone(), table_peer(9)).is_some());
    assert_eq!(table.local_edges_info().len(), 1);
}

#[test]
fn routes_follow_the_graph() {
    let me = table_peer(0);
    let mut graph = Graph::new(me.clone());
    graph.add_edge(&me, &table_peer(1));
    graph.add_edge(&me, &table_peer(2));
    graph.add_edge(&table_peer(1), &table_peer(3));
    graph.add_edge(&table_peer(2), &table_peer(3));
    let mut table = RoutingTableView::new(me);
    table.set_peer_forwarding(Arc::new(graph.calculate_distance()));
    assert_eq!(table.find_route_from_peer_id(&table_peer(3)), Ok(table_peer(1)));
    assert_eq!(table.find_route_from_peer_id(&table_peer(3)), Ok(table_peer(2)));
    assert_eq!(table.find_route_from_peer_id(&table_peer(1)), Ok(table_peer(1)));
    // peer 1 has been used twice now, peer 2 once
    assert_eq!(table.find_route_from_peer_id(&table_peer(3)), Ok(table_peer(2)));
    assert_eq!(table.find_route_from_peer_id(&table_peer(4)), Err(FindRouteError::PeerNotFound));
}

#[test]
fn the_count_of_the_hop_used_least_recently_is_forgotten() {
    let mut table = RoutingTableView::new(table_peer(0));
    let old = table_peer(1);
    let mut rows = vec![(table_peer(1_000_000), vec![old.clone()])];
    for n in 0..ROUND_ROBIN_NONCE_CACHE_SIZE as u32 {
        rows.push((table_peer(2_000_000 + n), vec![table_peer(100 + n)]));
    }
    // the last hop of all, or the hop used first and then not any more
    rows.push((table_peer(3_000_000), vec![
        table_peer(100 + ROUND_ROBIN_NONCE_CACHE_SIZE as u32 - 1),
        old.clone(),
    ]));
    table.set_peer_forwarding(forwarding(rows));
    assert_eq!(table.find_route_from_peer_id(&table_peer(1_000_000)), Ok(old.clone()));
    assert_eq!(table.find_route_from_peer_id(&table_peer(1_000_000)), Ok(old.clone()));
    for n in 0..ROUND_ROBIN_NONCE_CACHE_SIZE as u32 {
        assert_eq!(
            table.find_route_from_peer_id(&table_peer(2_000_000 + n)),
            Ok(table_peer(100 + n))
        );
    }
    // the old hop was used twice and the last hop once: had the count of the
    // old hop been kept, the last hop would go first
    assert_eq!(table.find_route_from_peer_id(&table_peer(3_000_000)), Ok(old));
}

#[test]
fn the_ping_counted_least_recently_leaves_a_full_cache() {
    let mut table = RoutingTableView::new(table_peer(0));
    for n in 0..PING_PONG_CACHE_SIZE as u64 {
        table.add_ping(Ping { nonce: n, source: table_peer(1) });
        table.add_pong(Pong { nonce: n, source: table_peer(2) }, 0);
    }
    // a full cache makes room whenever a ping is set, also one that it holds:
    // the ping with the nonce 0 comes to the front, and the one with the
    // nonce 1 leaves
    table.add_ping(Ping { nonce: 0, source: table_peer(1) });
    let (pings, pongs) = table.fetch_ping_pong();
    assert_eq!(pings.len(), PING_PONG_CACHE_SIZE - 1);
    assert_eq!(pongs.len(), PING_PONG_CACHE_SIZE);
    assert_eq!(pings[0].0, 0);
    assert_eq!(pings[0].1 .1, 2);
    assert!(!pings.iter().any(|entry| entry.0 == 1));
    table.add_ping(Ping { nonce: 5_000, source: table_peer(1) });
    table.add_pong(Pong { nonce: 5_000, source: table_peer(2) }, 0);
    let (pings, pongs) = table.fetch_ping_pong();
    assert_eq!(pings.len(), PING_PONG_CACHE_SIZE);
    assert_eq!(pongs.len(), PING_PONG_CACHE_SIZE);
    assert!(pings.iter().any(|entry| entry.0 == 0));
    assert!(pings.iter().any(|entry| entry.0 == 2));
    assert_eq!(pings[0].0, 5_000);
    assert!(!pongs.iter().any(|entry| entry.0 == 0));
    assert!(pongs.iter().any(|entry| entry.0 == 1));
}

#[test]
fn pong_tells_the_time_since_its_ping() {
    let mut table = RoutingTableView::new(table_peer(0));
    table.sending_ping(3, table_peer(1), 1_000);
    table.sending_ping(4, table_peer(1), 1_500);
    table.sending_ping(3, table_peer(2), 2_000);
    // a pong from a peer that was not pinged, and one for a nonce not sent
    assert_eq!(table.add_pong(Pong { nonce: 3, source: table_peer(9) }, 2_500), None);
    assert_eq!(table.add_pong(Pong { nonce: 5, source: table_peer(1) }, 2_500), None);
    assert_eq!(table.add_pong(Pong { nonce: 3, source: table_peer(1) }, 2_500), Some(1_500));
    // the ping is waited for no more
    assert_eq!(table.add_pong(Pong { nonce: 3, source: table_peer(1) }, 2_600), None);
    assert_eq!(table.add_pong(Pong { nonce: 4, source: table_peer(1) }, 2_600), Some(1_100));
    // a pong that comes before its ping was sent took no time
    assert_eq!(table.add_pong(Pong { nonce: 3, source: table_peer(2) }, 1_000), Some(0));
    let (_, pongs) = table.fetch_ping_pong();
    let three = pongs.iter().find(|entry| entry.0 == 3).unwrap();
    assert_eq!(three.1 .1, 4);
    assert_eq!(three.1 .0.source, table_peer(2));
}

#[test]
fn a_ping_sent_again_is_timed_from_the_last_sending() {
    let mut table = RoutingTableView::new(table_peer(0));
    table.sending_ping(3, table_peer(1), 1_000);
    table.sending_ping(3, table_peer(1), 1_700);
    assert_eq!(table.add_pong(Pong { nonce: 3, source: table_peer(1) }, 2_000), Some(300));
}

#[test]
fn only_the_last_ten_pings_to_a_peer_are_waited_for() {
    assert_eq!(WAITING_PONG_CACHE_SIZE, 10);
    let mut table = RoutingTableView::new(table_peer(0));
    for nonce in 0..11usize {
        table.sending_ping(nonce, table_peer(1), 100 + nonce as u64);
    }
    assert_eq!(table.add_pong(Pong { nonce: 0, source: table_peer(1) }, 200), None);
    assert_eq!(table.add_pong(Pong { nonce: 1, source: table_peer(1) }, 200), Some(99));
    assert_eq!(table.add_pong(Pong { nonce: 10, source: table_peer(1) }, 200), Some(90));
}

#[test]
fn the_peer_pinged_least_recently_is_waited_for_no_more() {
    let mut table = RoutingTableView::new(table_peer(0));
    for n in 0..PING_PONG_CACHE_SIZE as u32 {
        table.sending_ping(1, table_peer(10 + n), 100);
    }
    assert_eq!(table.add_pong(Pong { nonce: 2, source: table_peer(10) }, 150), None);
    table.sending_ping(1, table_peer(5_000), 100);
    // the peer asked for last stays, the next one has left
    assert_eq!(table.add_pong(Pong { nonce: 1, source: table_peer(10) }, 150), Some(50));
    assert_eq!(table.add_pong(Pong { nonce: 1, source: table_peer(11) }, 150), None);
    assert_eq!(table.add_pong(Pong { nonce: 1, source: table_peer(12) }, 150), Some(50));
    assert_eq!(table.add_pong(Pong { nonce: 1, source: table_peer(5_000) }, 150), Some(50));
}

#[test]
fn an_edge_is_newer_only_with_a_higher_nonce() {
    let me = table_peer(5);
    let mut table = RoutingTableView::new(me.clone());
    let key = Edge::make_key(me.clone(), table_peer(1));
    table.add_local_edge(Edge::make_fake_edge(key.0.clone(), key.1.clone(), 0));
    assert!(!table.is_local_edge_newer(&key, 0));
    assert!(table.is_local_edge_newer(&key, 1));
    table.add_local_edge(Edge::make_fake_edge(key.0.clone(), key.1.clone(), u64::MAX));
    assert!(!table.is_local_edge_newer(&key, u64::MAX));
    assert!(!table.is_local_edge_newer(&key, 7));
}

#[test]
fn a_loaded_announcement_is_kept() {
    let mut table = RoutingTableView::new(table_peer(0));
    let alice = AccountId::new(b"alice.near".to_vec());
    assert_eq!(table.announce_loaded(None), None);
    assert_eq!(table.get_announce_accounts_size(), 0);
    assert_eq!(
        table.announce_loaded(Some(table_announce("alice.near", 1, 7))),
        Some(table_announce("alice.near", 1, 7))
    );
    assert_eq!(table.get_announce(&alice), Some(table_announce("alice.near", 1, 7)));
    assert_eq!(table.get_announce_accounts_size(), 1);
}

#[test]
fn owner_and_epoch_of_a_found_announcement() {
    let found = table_announce("alice.near", 3, 7);
    assert_eq!(RoutingTableView::owner_of(Some(found.clone())), Ok(table_peer(3)));
    assert_eq!(RoutingTableView::owner_of(None), Err(FindRouteError::AccountNotFound));
    assert!(RoutingTableView::same_epoch(Some(found.clone()), &table_announce("alice.near", 9, 7)));
    assert!(!RoutingTableView::same_epoch(Some(found), &table_announce("alice.near", 3, 8)));
    assert!(!RoutingTableView::same_epoch(None, &table_announce("alice.near", 3, 7)));
}

#[test]
fn route_back_is_not_overwritten_within_the_timeout() {
    let mut table = RoutingTableView::new(table_peer(0));
    assert!(table.add_route_back(table_hash(7), table_peer(1), 1_000));
    assert!(!table.add_route_back(table_hash(7), table_peer(2), 60_000));
    assert!(table.compare_route_back(&table_hash(7), &table_peer(1)));
    assert!(!table.compare_route_back(&table_hash(7), &table_peer(2)));
    assert!(!table.add_route_back(table_hash(7), table_peer(2), 121_000));
    assert_eq!(
        table.find_route(&PeerIdOrHash::Hash(table_hash(7)), 1_000 + ROUTE_BACK_CACHE_EVICT_TIMEOUT),
        Ok(table_peer(1))
    );
    // past the timeout the second peer is noted
    assert!(table.add_route_back(table_hash(8), table_peer(1), 200_000));
    assert!(table.add_route_back(table_hash(8), table_peer(2), 320_001));
    assert!(table.compare_route_back(&table_hash(8), &table_peer(2)));
}
