use borsh::BorshSerialize;
use near_crypto::{KeyType, SecretKey};
use peer_routing::keys::{PeerId, PublicKey};
use peer_routing::peer_store::{PeerStore, PeerStoreError, PeerWrite};
use peer_routing::peer_types::{
    KnownPeerState, KnownPeerStatus, PeerInfo, ReasonForBan, SocketAddr, TrustLevel, VerifiedPeer,
};
use std::collections::BTreeMap;

/// What stands for the store on disk: the saved peers in the order of their
/// keys.
type Saved = BTreeMap<PeerId, KnownPeerState>;

fn save(saved: &mut Saved, writes: Vec<PeerWrite>) {
    for write in writes {
        saved.insert(write.peer_id, write.state);
    }
}

fn rows(saved: &Saved) -> Vec<(PeerId, KnownPeerState)> {
    saved.iter().map(|(id, state)| (id.clone(), state.clone())).collect()
}

fn get_peer_id(seed: String) -> PeerId {
    let key = SecretKey::from_seed(KeyType::ED25519, seed.as_str()).public_key();
    PeerId::new(PublicKey::from_bytes(key.try_to_vec().unwrap()).unwrap())
}

fn get_addr(port: u16) -> SocketAddr {
    SocketAddr { v6: false, ip: 0x7f00_0001, port }
}

fn get_peer_info(peer_id: PeerId, addr: Option<SocketAddr>) -> PeerInfo {
    PeerInfo { id: peer_id, addr, account_id: None }
}

fn gen_peer_info(port: u16) -> PeerInfo {
    let key = SecretKey::from_random(KeyType::ED25519).public_key();
    PeerInfo {
        id: PeerId::new(PublicKey::from_bytes(key.try_to_vec().unwrap()).unwrap()),
        addr: Some(get_addr(port)),
        account_id: None,
    }
}

fn check_exist(
    peer_store: &PeerStore,
    peer_id: &PeerId,
    addr_level: Option<(SocketAddr, TrustLevel)>,
) -> bool {
    if let Some(peer_info) = peer_store.peer_state(peer_id) {
        let peer_info = &peer_info.peer_info;
        if let Some((addr, level)) = addr_level {
            peer_info.addr.map_or(false, |cur_addr| cur_addr == addr)
                && peer_store.peer_at(&addr).map_or(false, |verified| verified.trust_level == level)
        } else {
            peer_info.addr.is_none()
        }
    } else {
        false
    }
}

fn check_integrity(peer_store: &PeerStore) -> bool {
    peer_store.peer_ids().iter().all(|k| {
        let v = peer_store.peer_state(k).unwrap();
        if v.peer_info.id != *k {
            return false;
        }
        if let Some(addr) = v.peer_info.addr {
            if peer_store.peer_at(&addr).map_or(true, |value| value.peer_id != *k) {
                return false;
            }
        }
        true
    }) && peer_store.bound_addrs().iter().all(|k| {
        let v = peer_store.peer_at(k).unwrap();
        !peer_store
            .peer_state(&v.peer_id)
            .map_or(true, |value| value.peer_info.addr.map_or(true, |addr| addr != *k))
    })
}

#[test]
fn ban_store() {
    let mut saved = Saved::new();
    let peer_info_a = gen_peer_info(0);
    let peer_info_to_ban = gen_peer_info(1);
    let boot_nodes = vec![peer_info_a, peer_info_to_ban.clone()];
    {
        let mut peer_store = PeerStore::new(&boot_nodes, &rows(&saved), 1);
        assert_eq!(peer_store.healthy_peers(3).len(), 2);
        let write = peer_store.peer_ban(&peer_info_to_ban.id, ReasonForBan::Abusive, 2).unwrap();
        save(&mut saved, vec![write]);
        assert_eq!(peer_store.healthy_peers(3).len(), 1);
    }
    {
        let peer_store_new = PeerStore::new(&boot_nodes, &rows(&saved), 3);
        assert_eq!(peer_store_new.healthy_peers(3).len(), 1);
    }
}

#[test]
fn test_unconnected_peer() {
    let saved = Saved::new();
    let peer_info_a = gen_peer_info(0);
    let peer_info_to_ban = gen_peer_info(1);
    let boot_nodes = vec![peer_info_a, peer_info_to_ban];
    {
        let peer_store = PeerStore::new(&boot_nodes, &rows(&saved), 1);
        assert!(peer_store.unconnected_peer(|_| false).is_some());
        assert!(peer_store.unconnected_peer(|_| true).is_none());
    }
}

/// If we know there is a peer_id A at address #A, and after some time
/// we learn that there is a new peer B at address #A, we discard address of A
#[test]
fn handle_peer_id_change() {
    let mut peer_store = PeerStore::new(&vec![], &vec![], 1);

    let peers_id = (0..2).map(|ix| get_peer_id(format!("node{}", ix))).collect::<Vec<_>>();
    let addr = get_addr(0);

    let peer_aa = get_peer_info(peers_id[0].clone(), Some(addr));
    peer_store.peer_connected(&peer_aa, 2);
    assert!(check_exist(&peer_store, &peers_id[0], Some((addr, TrustLevel::Signed))));

    let peer_ba = get_peer_info(peers_id[1].clone(), Some(addr));
    peer_store.add_peer(peer_ba, TrustLevel::Direct, 3);

    assert!(check_exist(&peer_store, &peers_id[0], None));
    assert!(check_exist(&peer_store, &peers_id[1], Some((addr, TrustLevel::Direct))));
    assert!(check_integrity(&peer_store));
}

/// If we know there is a peer_id A at address #A, and then we learn about
/// the same peer_id A at address #B, if that connection wasn't signed it is not updated,
/// to avoid malicious actor making us forget about known peers.
#[test]
fn dont_handle_address_change() {
    let mut peer_store = PeerStore::new(&vec![], &vec![], 1);

    let peers_id = (0..1).map(|ix| get_peer_id(format!("node{}", ix))).collect::<Vec<_>>();
    let addrs = (0..2).map(get_addr).collect::<Vec<_>>();

    let peer_aa = get_peer_info(peers_id[0].clone(), Some(addrs[0]));
    peer_store.peer_connected(&peer_aa, 2);
    assert!(check_exist(&peer_store, &peers_id[0], Some((addrs[0], TrustLevel::Signed))));

    let peer_ba = get_peer_info(peers_id[0].clone(), Some(addrs[1]));
    peer_store.add_peer(peer_ba, TrustLevel::Direct, 3);
    assert!(check_exist(&peer_store, &peers_id[0], Some((addrs[0], TrustLevel::Signed))));
    assert!(check_integrity(&peer_store));
    assert!(peer_store.peer_at(&addrs[1]).is_none());
}

#[test]
fn check_add_peers_overriding() {
    let mut saved = Saved::new();
    let mut peer_store = PeerStore::new(&vec![], &rows(&saved), 1);

    // Five peers: A, B, C, D, X, T
    let peers_id = (0..6).map(|ix| get_peer_id(format!("node{}", ix))).collect::<Vec<_>>();
    // Five addresses: #A, #B, #C, #D, #X, #T
    let addrs = (0..6).map(get_addr).collect::<Vec<_>>();

    // Create signed connection A - #A
    let peer_00 = get_peer_info(peers_id[0].clone(), Some(addrs[0]));
    save(&mut saved, peer_store.peer_connected(&peer_00, 2));
    assert!(check_exist(&peer_store, &peers_id[0], Some((addrs[0], TrustLevel::Signed))));
    assert!(check_integrity(&peer_store));

    // Create direct connection B - #B
    let peer_11 = get_peer_info(peers_id[1].clone(), Some(addrs[1]));
    save(&mut saved, peer_store.add_peer(peer_11.clone(), TrustLevel::Direct, 3));
    assert!(check_exist(&peer_store, &peers_id[1], Some((addrs[1], TrustLevel::Direct))));
    assert!(check_integrity(&peer_store));

    // Create signed connection B - #B
    save(&mut saved, peer_store.peer_connected(&peer_11, 4));
    assert!(check_exist(&peer_store, &peers_id[1], Some((addrs[1], TrustLevel::Signed))));
    assert!(check_integrity(&peer_store));

    // Create indirect connection C - #C
    let peer_22 = get_peer_info(peers_id[2].clone(), Some(addrs[2]));
    save(&mut saved, peer_store.add_peer(peer_22.clone(), TrustLevel::Indirect, 5));
    assert!(check_exist(&peer_store, &peers_id[2], Some((addrs[2], TrustLevel::Indirect))));
    assert!(check_integrity(&peer_store));

    // Create signed connection C - #C
    save(&mut saved, peer_store.peer_connected(&peer_22, 6));
    assert!(check_exist(&peer_store, &peers_id[2], Some((addrs[2], TrustLevel::Signed))));
    assert!(check_integrity(&peer_store));

    // Create signed connection C - #B
    // This overrides C - #C and B - #B
    let peer_21 = get_peer_info(peers_id[2].clone(), Some(addrs[1]));
    save(&mut saved, peer_store.peer_connected(&peer_21, 7));
    assert!(check_exist(&peer_store, &peers_id[1], None));
    assert!(check_exist(&peer_store, &peers_id[2], Some((addrs[1], TrustLevel::Signed))));
    assert!(check_integrity(&peer_store));

    // Create indirect connection D - #D
    let peer_33 = get_peer_info(peers_id[3].clone(), Some(addrs[3]));
    save(&mut saved, peer_store.add_peer(peer_33, TrustLevel::Indirect, 8));
    assert!(check_exist(&peer_store, &peers_id[3], Some((addrs[3], TrustLevel::Indirect))));
    assert!(check_integrity(&peer_store));

    // Try to create indirect connection A - #X but fails since A - #A exists
    let peer_04 = get_peer_info(peers_id[0].clone(), Some(addrs[4]));
    save(&mut saved, peer_store.add_peer(peer_04, TrustLevel::Indirect, 9));
    assert!(check_exist(&peer_store, &peers_id[0], Some((addrs[0], TrustLevel::Signed))));
    assert!(check_integrity(&peer_store));

    // Try to create indirect connection X - #D but fails since D - #D exists
    let peer_43 = get_peer_info(peers_id[4].clone(), Some(addrs[3]));
    save(&mut saved, peer_store.add_peer(peer_43.clone(), TrustLevel::Indirect, 10));
    assert!(check_exist(&peer_store, &peers_id[3], Some((addrs[3], TrustLevel::Indirect))));
    assert!(check_integrity(&peer_store));

    // Create Direct connection X - #D and succeed removing connection D - #D
    save(&mut saved, peer_store.add_peer(peer_43, TrustLevel::Direct, 11));
    assert!(check_exist(&peer_store, &peers_id[4], Some((addrs[3], TrustLevel::Direct))));
    // D should still exist, but without any addr
    assert!(check_exist(&peer_store, &peers_id[3], None));
    assert!(check_integrity(&peer_store));

    // Try to create indirect connection A - #T but fails since A - #A (signed) exists
    let peer_05 = get_peer_info(peers_id[0].clone(), Some(addrs[5]));
    save(&mut saved, peer_store.add_peer(peer_05, TrustLevel::Direct, 12));
    assert!(check_exist(&peer_store, &peers_id[0], Some((addrs[0], TrustLevel::Signed))));
    assert!(check_integrity(&peer_store));

    // Check we are able to recover from store previous signed connection
    let peer_store_2 = PeerStore::new(&vec![], &rows(&saved), 13);
    assert!(check_exist(&peer_store_2, &peers_id[0], Some((addrs[0], TrustLevel::Indirect))));
    assert!(check_integrity(&peer_store_2));
}

#[test]
fn connected_peer_is_seen_and_saved() {
    let mut peer_store = PeerStore::empty();
    let peer = get_peer_info(get_peer_id("seen".to_string()), Some(get_addr(1)));
    let writes = peer_store.peer_connected(&peer, 50);
    assert_eq!(writes.len(), 2);
    let last = writes.last().unwrap();
    assert_eq!(last.peer_id, peer.id);
    assert_eq!(last.state.status, KnownPeerStatus::Connected);
    assert_eq!(last.state.first_seen(), 50);
    assert_eq!(last.state.last_seen(), 50);
    assert_eq!(last.state.peer_info, peer);
    assert_eq!(writes[0].state.status, KnownPeerStatus::Unknown);
    assert_eq!(peer_store.len(), 1);
    let write = peer_store.peer_disconnected(&peer.id, 70).unwrap();
    assert_eq!(write.state.status, KnownPeerStatus::NotConnected);
    assert_eq!(write.state.first_seen, 50);
    assert_eq!(write.state.last_seen, 70);
    assert_eq!(peer_store.peer_state(&peer.id).unwrap().last_seen(), 70);
}

#[test]
fn peer_without_address_is_noted_once() {
    let mut peer_store = PeerStore::empty();
    let peer = get_peer_info(get_peer_id("nowhere".to_string()), None);
    assert!(peer_store.add_peer(peer.clone(), TrustLevel::Direct, 5).is_empty());
    assert_eq!(peer_store.len(), 1);
    let state = peer_store.peer_state(&peer.id).unwrap();
    assert_eq!(state.status, KnownPeerStatus::Unknown);
    assert_eq!(state.first_seen, 5);
    assert!(peer_store.add_trusted_peer(peer.clone(), TrustLevel::Signed, 9).is_empty());
    assert_eq!(peer_store.peer_state(&peer.id).unwrap().first_seen, 5);
    // a peer without address cannot be connected to
    assert!(peer_store.unconnected_peer(|_| false).is_none());
    let writes = peer_store.peer_connected(&peer, 11);
    assert_eq!(writes.len(), 1);
    assert_eq!(writes[0].state.status, KnownPeerStatus::Connected);
    assert_eq!(writes[0].state.peer_info.addr, None);
}

#[test]
fn ban_and_unban() {
    let mut peer_store = PeerStore::empty();
    let peer = get_peer_info(get_peer_id("banned".to_string()), Some(get_addr(1)));
    let stranger = get_peer_id("stranger".to_string());
    assert_eq!(
        peer_store.peer_ban(&stranger, ReasonForBan::Abusive, 1).err(),
        Some(PeerStoreError::PeerMissing)
    );
    assert_eq!(peer_store.peer_unban(&stranger).err(), Some(PeerStoreError::PeerMissing));
    assert_eq!(
        peer_store.peer_disconnected(&stranger, 1).err(),
        Some(PeerStoreError::PeerMissing)
    );
    assert!(!peer_store.is_banned(&stranger));
    peer_store.peer_connected(&peer, 10);
    assert!(!peer_store.is_banned(&peer.id));
    let write = peer_store.peer_ban(&peer.id, ReasonForBan::BadBlock, 20).unwrap();
    assert_eq!(write.state.status, KnownPeerStatus::Banned(ReasonForBan::BadBlock, 20));
    assert_eq!(write.state.last_seen, 20);
    assert!(peer_store.is_banned(&peer.id));
    assert!(peer_store.healthy_peers(10).is_empty());
    assert!(peer_store.unconnected_peer(|_| false).is_none());
    let write = peer_store.peer_unban(&peer.id).unwrap();
    assert_eq!(write.state.status, KnownPeerStatus::NotConnected);
    assert_eq!(write.state.last_seen, 20);
    assert!(!peer_store.is_banned(&peer.id));
    assert_eq!(peer_store.unconnected_peer(|_| false), Some(peer.clone()));
    assert_eq!(peer_store.healthy_peers(10), vec![peer]);
}

#[test]
fn boot_nodes_with_the_same_identity_or_address_come_in_once() {
    let a = get_peer_id("a".to_string());
    let b = get_peer_id("b".to_string());
    let c = get_peer_id("c".to_string());
    let boot_nodes = vec![
        get_peer_info(a.clone(), Some(get_addr(1))),
        get_peer_info(a.clone(), Some(get_addr(2))),
        get_peer_info(b.clone(), Some(get_addr(1))),
        get_peer_info(c.clone(), None),
        get_peer_info(b.clone(), Some(get_addr(3))),
    ];
    let peer_store = PeerStore::new(&boot_nodes, &vec![], 9);
    assert_eq!(peer_store.len(), 2);
    assert_eq!(peer_store.peer_ids(), vec![a.clone(), b.clone()]);
    assert!(check_exist(&peer_store, &a, Some((get_addr(1), TrustLevel::Signed))));
    assert!(check_exist(&peer_store, &b, Some((get_addr(3), TrustLevel::Signed))));
    assert!(peer_store.peer_at(&get_addr(2)).is_none());
    assert!(peer_store.peer_state(&c).is_none());
    assert_eq!(peer_store.peer_state(&a).unwrap().status, KnownPeerStatus::Unknown);
    assert_eq!(peer_store.peer_state(&a).unwrap().first_seen, 9);
    assert!(check_integrity(&peer_store));
}

#[test]
fn saved_peers_come_in_not_connected_and_seen_now() {
    let a = get_peer_id("a".to_string());
    let b = get_peer_id("b".to_string());
    let c = get_peer_id("c".to_string());
    let d = get_peer_id("d".to_string());
    let state = |id: &PeerId, port: Option<u16>, status: KnownPeerStatus| KnownPeerState {
        peer_info: get_peer_info(id.clone(), port.map(get_addr)),
        status,
        first_seen: 3,
        last_seen: 4,
    };
    let saved = vec![
        (a.clone(), state(&a, Some(7), KnownPeerStatus::Banned(ReasonForBan::Abusive, 4))),
        (b.clone(), state(&b, Some(2), KnownPeerStatus::Connected)),
        (c.clone(), state(&c, Some(1), KnownPeerStatus::Connected)),
        (d.clone(), state(&d, None, KnownPeerStatus::NotConnected)),
    ];
    let boot_nodes = vec![get_peer_info(a.clone(), Some(get_addr(1)))];
    let peer_store = PeerStore::new(&boot_nodes, &saved, 9);
    // the boot node keeps its address and takes the ban over
    assert!(check_exist(&peer_store, &a, Some((get_addr(1), TrustLevel::Signed))));
    assert_eq!(
        peer_store.peer_state(&a).unwrap().status,
        KnownPeerStatus::Banned(ReasonForBan::Abusive, 4)
    );
    assert_eq!(peer_store.peer_state(&a).unwrap().first_seen, 9);
    assert!(peer_store.is_banned(&a));
    // a saved peer comes in with the lowest trust, not connected, seen now
    assert!(check_exist(&peer_store, &b, Some((get_addr(2), TrustLevel::Indirect))));
    let loaded = peer_store.peer_state(&b).unwrap();
    assert_eq!(loaded.status, KnownPeerStatus::NotConnected);
    assert_eq!(loaded.first_seen, 3);
    assert_eq!(loaded.last_seen, 9);
    // the address of c is that of the boot node, and d has none
    assert!(peer_store.peer_state(&c).is_none());
    assert!(peer_store.peer_state(&d).is_none());
    assert_eq!(peer_store.len(), 2);
    assert!(check_integrity(&peer_store));
}

#[test]
fn indirect_peers_do_not_override() {
    let mut peer_store = PeerStore::empty();
    let a = get_peer_id("a".to_string());
    let b = get_peer_id("b".to_string());
    let c = get_peer_id("c".to_string());
    let writes = peer_store.add_indirect_peers(
        vec![
            get_peer_info(a.clone(), Some(get_addr(1))),
            get_peer_info(b.clone(), Some(get_addr(1))),
            get_peer_info(a.clone(), Some(get_addr(2))),
            get_peer_info(c.clone(), Some(get_addr(3))),
        ],
        4,
    );
    assert_eq!(writes.len(), 2);
    assert_eq!(writes[0].peer_id, a);
    assert_eq!(writes[1].peer_id, c);
    assert!(check_exist(&peer_store, &a, Some((get_addr(1), TrustLevel::Indirect))));
    assert!(check_exist(&peer_store, &c, Some((get_addr(3), TrustLevel::Indirect))));
    assert!(peer_store.peer_state(&b).is_none());
    assert!(peer_store.peer_at(&get_addr(2)).is_none());
    assert!(TrustLevel::Indirect.is_below(&TrustLevel::Direct));
    assert!(TrustLevel::Direct.is_below(&TrustLevel::Signed));
    assert!(!TrustLevel::Signed.is_below(&TrustLevel::Signed));
    assert_eq!(VerifiedPeer::new(a.clone()).trust_level, TrustLevel::Indirect);
    assert_eq!(VerifiedPeer::signed(a).trust_level, TrustLevel::Signed);
}

#[test]
fn rebinding_the_same_pair_saves_the_peer_twice() {
    let mut peer_store = PeerStore::empty();
    let a = get_peer_info(get_peer_id("a".to_string()), Some(get_addr(1)));
    assert_eq!(peer_store.add_peer(a.clone(), TrustLevel::Direct, 1).len(), 1);
    let writes = peer_store.add_peer(a.clone(), TrustLevel::Signed, 2);
    assert_eq!(writes.len(), 2);
    assert_eq!(writes[0].peer_id, a.id);
    assert_eq!(writes[1].peer_id, a.id);
    assert_eq!(writes[1].state.peer_info.addr, Some(get_addr(1)));
    assert_eq!(writes[1].state.first_seen, 1);
    assert!(check_exist(&peer_store, &a.id, Some((get_addr(1), TrustLevel::Signed))));
}

#[test]
fn expired_peers_leave_with_their_addresses() {
    let mut peer_store = PeerStore::empty();
    let a = get_peer_info(get_peer_id("a".to_string()), Some(get_addr(1)));
    let b = get_peer_info(get_peer_id("b".to_string()), Some(get_addr(2)));
    let c = get_peer_info(get_peer_id("c".to_string()), Some(get_addr(3)));
    let d = get_peer_info(get_peer_id("d".to_string()), Some(get_addr(4)));
    peer_store.peer_connected(&a, 0);
    peer_store.peer_connected(&b, 0);
    peer_store.peer_disconnected(&b.id, 0).unwrap();
    peer_store.add_peer(c.clone(), TrustLevel::Indirect, 50);
    peer_store.add_peer(d.clone(), TrustLevel::Indirect, 49);
    // at 150 with an expiration of 100: b and d were seen more than 100 ago,
    // c exactly 100 ago, and a is connected
    assert_eq!(peer_store.remove_expired(100, 150), Ok(vec![b.id.clone(), d.id.clone()]));
    assert_eq!(peer_store.peer_ids(), vec![a.id.clone(), c.id.clone()]);
    assert!(peer_store.peer_at(&get_addr(2)).is_none());
    assert!(peer_store.peer_at(&get_addr(4)).is_none());
    assert!(peer_store.peer_at(&get_addr(1)).is_some());
    assert!(check_integrity(&peer_store));
    assert_eq!(peer_store.remove_expired(100, 150), Ok(vec![]));
}

#[test]
fn a_peer_seen_in_the_future_stops_the_removal() {
    let mut peer_store = PeerStore::empty();
    let a = get_peer_info(get_peer_id("a".to_string()), Some(get_addr(1)));
    let b = get_peer_info(get_peer_id("b".to_string()), Some(get_addr(2)));
    peer_store.add_peer(a.clone(), TrustLevel::Indirect, 0);
    peer_store.add_peer(b.clone(), TrustLevel::Indirect, 500);
    assert_eq!(peer_store.remove_expired(100, 400), Err(PeerStoreError::SeenInFuture));
    assert_eq!(peer_store.len(), 2);
    assert_eq!(peer_store.remove_expired(100, 500), Ok(vec![a.id]));
}

#[test]
fn healthy_peers_are_different_peers() {
    let mut peer_store = PeerStore::empty();
    let mut all = Vec::new();
    for n in 0..20u16 {
        let peer = get_peer_info(get_peer_id(format!("healthy{}", n)), Some(get_addr(n)));
        peer_store.add_peer(peer.clone(), TrustLevel::Indirect, 1);
        all.push(peer);
    }
    peer_store.peer_ban(&all[3].id, ReasonForBan::Abusive, 2).unwrap();
    for _ in 0..20 {
        let picked = peer_store.healthy_peers(5);
        assert_eq!(picked.len(), 5);
        for (i, peer) in picked.iter().enumerate() {
            assert!(all.contains(peer));
            assert!(peer.id != all[3].id);
            assert!(!picked[..i].contains(peer));
        }
    }
    assert_eq!(peer_store.healthy_peers(0).len(), 0);
    let everyone = peer_store.healthy_peers(100);
    assert_eq!(everyone.len(), 19);
    for peer in all.iter() {
        assert_eq!(everyone.contains(peer), peer.id != all[3].id);
    }
}

#[test]
fn unconnected_peer_is_none_that_is_ignored() {
    let mut peer_store = PeerStore::empty();
    let a = get_peer_info(get_peer_id("a".to_string()), Some(get_addr(1)));
    let b = get_peer_info(get_peer_id("b".to_string()), Some(get_addr(2)));
    let c = get_peer_info(get_peer_id("c".to_string()), Some(get_addr(3)));
    peer_store.peer_connected(&a, 1);
    peer_store.add_peer(b.clone(), TrustLevel::Indirect, 1);
    peer_store.add_peer(c.clone(), TrustLevel::Indirect, 1);
    for _ in 0..20 {
        let wanted = b.id.clone();
        let picked = peer_store.unconnected_peer(move |state| state.peer_info.id == wanted);
        assert_eq!(picked, Some(c.clone()));
    }
    let seen: Vec<_> = (0..200).filter_map(|_| peer_store.unconnected_peer(|_| false)).collect();
    assert_eq!(seen.len(), 200);
    assert!(seen.contains(&b));
    assert!(seen.contains(&c));
    assert!(!seen.contains(&a));
}
