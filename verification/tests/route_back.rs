use peer_routing::keys::{CryptoHash, PeerId, PublicKey};
use peer_routing::route_back::RouteBackCache;

fn back_hash(n: u64) -> CryptoHash {
    let mut bytes = vec![0u8; 32];
    bytes[..8].copy_from_slice(&n.to_le_bytes());
    CryptoHash::from_bytes(bytes).unwrap()
}

fn back_peer(n: u8) -> PeerId {
    let mut bytes = vec![0u8; 33];
    bytes[1] = n;
    PeerId::new(PublicKey::from_bytes(bytes).unwrap())
}

#[test]
fn second_insert_for_a_hash_is_turned_down() {
    let mut cache = RouteBackCache::new(10, 100, 2);
    assert!(cache.insert(back_hash(1), back_peer(1), 0));
    assert!(!cache.insert(back_hash(1), back_peer(2), 1));
    assert_eq!(cache.get(&back_hash(1)), Some(&back_peer(1)));
    assert_eq!(cache.len(), 1);
    assert!(!cache.is_full());
}

#[test]
fn remove_uses_the_entry_up() {
    let mut cache = RouteBackCache::new(10, 100, 2);
    assert!(cache.insert(back_hash(1), back_peer(1), 0));
    assert_eq!(cache.get(&back_hash(1)), Some(&back_peer(1)));
    assert_eq!(cache.get(&back_hash(1)), Some(&back_peer(1)));
    assert_eq!(cache.remove(&back_hash(1), 5), Some(back_peer(1)));
    assert_eq!(cache.remove(&back_hash(1), 5), None);
    assert_eq!(cache.get(&back_hash(1)), None);
    assert_eq!(cache.len(), 0);
    assert!(cache.insert(back_hash(1), back_peer(3), 6));
    assert_eq!(cache.get(&back_hash(1)), Some(&back_peer(3)));
}

#[test]
fn entries_older_than_the_timeout_leave() {
    let mut cache = RouteBackCache::new(10, 100, 2);
    assert!(cache.insert(back_hash(1), back_peer(1), 0));
    assert!(cache.insert(back_hash(2), back_peer(2), 50));
    // at the age of exactly the timeout an entry stays
    assert!(cache.insert(back_hash(3), back_peer(3), 100));
    assert_eq!(cache.len(), 3);
    assert!(cache.insert(back_hash(4), back_peer(4), 101));
    assert_eq!(cache.get(&back_hash(1)), None);
    assert_eq!(cache.get(&back_hash(2)), Some(&back_peer(2)));
    assert_eq!(cache.len(), 3);
    assert_eq!(cache.remove(&back_hash(9), 151), None);
    assert_eq!(cache.get(&back_hash(2)), None);
    assert_eq!(cache.len(), 2);
    // an entry that has left can be inserted again
    assert!(cache.insert(back_hash(1), back_peer(7), 151));
    assert_eq!(cache.get(&back_hash(1)), Some(&back_peer(7)));
}

#[test]
fn a_full_cache_loses_a_batch_of_its_oldest_entries() {
    let mut cache = RouteBackCache::new(10, 1_000, 3);
    for n in 0..10 {
        assert!(cache.insert(back_hash(n), back_peer(n as u8), n));
        assert_eq!(cache.len(), n as usize + 1);
    }
    assert!(cache.is_full());
    assert!(cache.insert(back_hash(10), back_peer(10), 10));
    assert_eq!(cache.len(), 8);
    for n in 0..3 {
        assert_eq!(cache.get(&back_hash(n)), None);
    }
    for n in 3..11 {
        assert_eq!(cache.get(&back_hash(n)), Some(&back_peer(n as u8)));
    }
}

#[test]
fn a_batch_larger_than_the_cache_empties_it() {
    let mut cache = RouteBackCache::new(2, 1_000, 5);
    assert!(cache.insert(back_hash(0), back_peer(0), 0));
    assert!(cache.insert(back_hash(1), back_peer(1), 0));
    assert!(cache.insert(back_hash(2), back_peer(2), 0));
    assert_eq!(cache.len(), 1);
    assert_eq!(cache.get(&back_hash(2)), Some(&back_peer(2)));
}

#[test]
fn an_entry_with_an_earlier_time_goes_before_the_later_ones() {
    let mut cache = RouteBackCache::new(3, 1_000, 1);
    assert!(cache.insert(back_hash(0), back_peer(0), 10));
    assert!(cache.insert(back_hash(1), back_peer(1), 30));
    assert!(cache.insert(back_hash(2), back_peer(2), 20));
    // the cache is full: the oldest entry leaves, then the next oldest
    assert!(cache.insert(back_hash(3), back_peer(3), 40));
    assert_eq!(cache.get(&back_hash(0)), None);
    assert!(cache.insert(back_hash(4), back_peer(4), 40));
    assert_eq!(cache.get(&back_hash(2)), None);
    assert_eq!(cache.get(&back_hash(1)), Some(&back_peer(1)));
    assert_eq!(cache.len(), 3);
}

#[test]
fn the_100_001st_key_evicts_the_100_oldest() {
    let mut cache = RouteBackCache::new(100_000, 120_000, 100);
    for n in 0..100_000u64 {
        assert!(cache.insert(back_hash(n), back_peer((n % 200) as u8), n / 1_000));
    }
    assert_eq!(cache.len(), 100_000);
    assert!(cache.is_full());
    assert!(cache.insert(back_hash(100_000), back_peer(1), 100));
    assert_eq!(cache.len(), 99_901);
    assert_eq!(cache.get(&back_hash(0)), None);
    assert_eq!(cache.get(&back_hash(99)), None);
    assert_eq!(cache.get(&back_hash(100)), Some(&back_peer(100)));
    assert_eq!(cache.get(&back_hash(100_000)), Some(&back_peer(1)));
}

#[test]
fn the_youngest_entry_stays_when_a_full_cache_drops_a_batch() {
    let mut cache = RouteBackCache::new(3, 100, 1);
    assert!(cache.insert(back_hash(1), back_peer(1), 10));
    assert!(cache.insert(back_hash(2), back_peer(2), 20));
    assert!(cache.insert(back_hash(3), back_peer(3), 30));
    assert!(cache.is_full());
    // the second insertion drops the oldest entry and is turned down
    assert!(!cache.insert(back_hash(3), back_peer(4), 40));
    assert_eq!(cache.len(), 2);
    assert_eq!(cache.get(&back_hash(1)), None);
    assert_eq!(cache.get(&back_hash(3)), Some(&back_peer(3)));
    assert_eq!(cache.remove(&back_hash(3), 120), Some(back_peer(3)));
    assert_eq!(cache.len(), 1);
}

#[test]
fn an_entry_noted_with_an_earlier_time_leaves_a_full_cache_first() {
    let mut cache = RouteBackCache::new(3, 100, 1);
    assert!(cache.insert(back_hash(1), back_peer(1), 10));
    assert!(cache.insert(back_hash(2), back_peer(2), 10));
    assert!(cache.insert(back_hash(3), back_peer(3), 5));
    // the entry for the third hash is the oldest: the next insertion drops
    // it, and then notes the new peer
    assert!(cache.insert(back_hash(3), back_peer(4), 5));
    assert_eq!(cache.get(&back_hash(3)), Some(&back_peer(4)));
    assert_eq!(cache.len(), 3);
}

#[test]
fn an_entry_is_kept_until_it_is_older_than_the_timeout() {
    let mut cache = RouteBackCache::new(10, 100, 2);
    assert!(cache.insert(back_hash(1), back_peer(1), 1_000));
    assert!(!cache.insert(back_hash(1), back_peer(2), 1_050));
    assert!(!cache.insert(back_hash(1), back_peer(2), 1_100));
    assert_eq!(cache.get(&back_hash(1)), Some(&back_peer(1)));
    // one later the entry is expired, and the new peer is noted
    assert!(cache.insert(back_hash(1), back_peer(2), 1_101));
    assert_eq!(cache.get(&back_hash(1)), Some(&back_peer(2)));
    assert_eq!(cache.len(), 1);
}
