use borsh::{BorshDeserialize, BorshSerialize};
use near_network_primitives::types::{Edge as TheirEdge, PartialEdgeInfo};
use near_crypto::{KeyType, SecretKey};
use peer_routing::edge::{Edge, EdgeInfo, EdgeInner, EdgeType, SimpleEdge};
use peer_routing::keys::{
    CryptoHash, KeyType as Curve, PeerId, PublicKey, SecretKey as OurSecretKey, Signature,
};

fn half_edge(nonce: u64, signature: Signature) -> EdgeInfo {
    EdgeInfo { nonce, signature }
}

fn our_secret(secret: &SecretKey) -> OurSecretKey {
    OurSecretKey::from_text(secret.to_string()).unwrap()
}

fn edge_peer(secret: &SecretKey) -> PeerId {
    PeerId::new(PublicKey::from_bytes(secret.public_key().try_to_vec().unwrap()).unwrap())
}

fn edge_sign(secret: &SecretKey, hash: &CryptoHash) -> Signature {
    Signature::from_bytes(secret.sign(hash.as_bytes()).try_to_vec().unwrap()).unwrap()
}

fn edge_secrets() -> (SecretKey, SecretKey) {
    (
        SecretKey::from_seed(KeyType::ED25519, "edge-peer-0"),
        SecretKey::from_seed(KeyType::ED25519, "edge-peer-1"),
    )
}

fn signed_edge(nonce: u64) -> (Edge, SecretKey, SecretKey) {
    let (sk0, sk1) = edge_secrets();
    let (peer0, peer1) = (edge_peer(&sk0), edge_peer(&sk1));
    let hash = Edge::signing_hash(&peer0, &peer1, nonce);
    let edge = Edge::new(peer0, peer1, nonce, edge_sign(&sk0, &hash), edge_sign(&sk1, &hash));
    (edge, sk0, sk1)
}

#[test]
fn signed_edge_verifies() {
    let (edge, _, _) = signed_edge(1);
    assert!(edge.inner().verify());
    assert!(edge.inner().key.0 < edge.inner().key.1);
}

#[test]
fn signed_edge_verifies_in_either_order_of_the_peers() {
    let (sk0, sk1) = edge_secrets();
    let (peer0, peer1) = (edge_peer(&sk0), edge_peer(&sk1));
    let hash = Edge::signing_hash(&peer1, &peer0, 7);
    assert_eq!(hash, Edge::signing_hash(&peer0, &peer1, 7));
    let forward =
        Edge::new(peer0.clone(), peer1.clone(), 7, edge_sign(&sk0, &hash), edge_sign(&sk1, &hash));
    let backward = Edge::new(peer1, peer0, 7, edge_sign(&sk1, &hash), edge_sign(&sk0, &hash));
    assert!(forward.inner().verify());
    assert!(backward.inner().verify());
    assert_eq!(forward.to_bytes(), backward.to_bytes());
}

#[test]
fn edge_with_a_wrong_signature_does_not_verify() {
    let (sk0, sk1) = edge_secrets();
    let (peer0, peer1) = (edge_peer(&sk0), edge_peer(&sk1));
    let hash = Edge::signing_hash(&peer0, &peer1, 1);
    let other = Edge::signing_hash(&peer0, &peer1, 3);
    let edge =
        Edge::new(peer0.clone(), peer1.clone(), 1, edge_sign(&sk0, &hash), edge_sign(&sk1, &other));
    assert!(!edge.inner().verify());
    // both signatures by the same peer
    let edge = Edge::new(peer0, peer1, 1, edge_sign(&sk0, &hash), edge_sign(&sk0, &hash));
    assert!(!edge.inner().verify());
}

#[test]
fn added_edge_with_an_even_nonce_does_not_verify() {
    let (edge, _, _) = signed_edge(2);
    assert_eq!(edge.inner().edge_type(), EdgeType::Removed);
    assert!(!edge.inner().verify());
    let (zero, _, _) = signed_edge(0);
    assert!(!zero.inner().verify());
}

#[test]
fn edge_with_the_peers_out_of_order_does_not_verify() {
    let (edge, sk0, sk1) = signed_edge(1);
    let inner = edge.inner();
    let swapped = EdgeInner {
        key: (inner.key.1.clone(), inner.key.0.clone()),
        nonce: 1,
        signature0: inner.signature1.clone(),
        signature1: inner.signature0.clone(),
        removal_info: None,
    };
    assert!(!swapped.verify());
    let same = EdgeInner {
        key: (inner.key.0.clone(), inner.key.0.clone()),
        nonce: 1,
        signature0: inner.signature0.clone(),
        signature1: inner.signature0.clone(),
        removal_info: None,
    };
    assert!(!same.verify());
    let _ = (sk0, sk1);
}

#[test]
fn removed_edge_verifies() {
    let (edge, sk0, sk1) = signed_edge(5);
    let (peer0, peer1) = (edge_peer(&sk0), edge_peer(&sk1));
    let hash = edge.inner().removal_hash();
    assert_eq!(hash, Edge::signing_hash(&peer0, &peer1, 6));
    let by_first = edge.inner().removed_by(&peer0, edge_sign(&sk0, &hash));
    assert_eq!(by_first.inner().nonce, 6);
    assert_eq!(by_first.inner().edge_type(), EdgeType::Removed);
    assert!(by_first.inner().verify());
    let by_second = edge.inner().removed_by(&peer1, edge_sign(&sk1, &hash));
    assert!(by_second.inner().verify());
    let first_is_key0 = edge.inner().key.0 == peer0;
    assert_eq!(by_first.inner().removal_info.as_ref().unwrap().0, first_is_key0);
    assert_eq!(by_second.inner().removal_info.as_ref().unwrap().0, !first_is_key0);
    assert_eq!(by_first.inner().signature0, edge.inner().signature0);
    assert_eq!(by_first.inner().signature1, edge.inner().signature1);
}

#[test]
fn removed_edge_signed_by_the_wrong_peer_does_not_verify() {
    let (edge, sk0, sk1) = signed_edge(5);
    let peer0 = edge_peer(&sk0);
    let hash = edge.inner().removal_hash();
    let removed = edge.inner().removed_by(&peer0, edge_sign(&sk1, &hash));
    assert!(!removed.inner().verify());
    let stale = edge.inner().removed_by(&peer0, edge_sign(&sk0, &Edge::signing_hash(&peer0, &edge_peer(&sk1), 5)));
    assert!(!stale.inner().verify());
}

#[test]
fn removed_edge_without_removal_does_not_verify() {
    let (edge, _, _) = signed_edge(5);
    let inner = edge.inner();
    let bare = EdgeInner {
        key: (inner.key.0.clone(), inner.key.1.clone()),
        nonce: 6,
        signature0: inner.signature0.clone(),
        signature1: inner.signature1.clone(),
        removal_info: None,
    };
    assert!(!bare.verify());
}

#[test]
fn half_edge_verifies_against_its_signer() {
    let (sk0, sk1) = edge_secrets();
    let (peer0, peer1) = (edge_peer(&sk0), edge_peer(&sk1));
    let hash = Edge::signing_hash(&peer0, &peer1, 9);
    let info = half_edge(9, edge_sign(&sk1, &hash));
    assert_eq!(info.nonce, 9);
    assert!(Edge::partial_verify(peer0.clone(), peer1.clone(), &info));
    assert!(!Edge::partial_verify(peer1.clone(), peer0.clone(), &info));
    let wrong = half_edge(11, edge_sign(&sk1, &hash));
    assert!(!Edge::partial_verify(peer0, peer1, &wrong));
}

#[test]
fn signature_of_the_other_curve_is_turned_down() {
    let (sk0, _) = edge_secrets();
    let peer0 = edge_peer(&sk0);
    let hash = Edge::signing_hash(&peer0, &peer0, 1);
    let secp = Signature::empty(Curve::SECP256K1);
    assert!(!secp.verify(hash.as_bytes(), peer0.public_key()));
    let good = edge_sign(&sk0, &hash);
    assert!(good.verify(hash.as_bytes(), peer0.public_key()));
    assert!(!good.verify(hash.as_bytes(), &PublicKey::empty(Curve::SECP256K1)));
    assert!(!Signature::empty(Curve::ED25519).verify(hash.as_bytes(), peer0.public_key()));
}

#[test]
fn edge_type_follows_the_parity_of_the_nonce() {
    let (sk0, sk1) = edge_secrets();
    let (peer0, peer1) = (edge_peer(&sk0), edge_peer(&sk1));
    for nonce in [0u64, 1, 2, 3, 10, 11, u64::MAX - 1, u64::MAX] {
        let edge = Edge::make_fake_edge(peer0.clone(), peer1.clone(), nonce);
        let simple = SimpleEdge::new(peer0.clone(), peer1.clone(), nonce);
        let expected = if nonce % 2 == 1 { EdgeType::Added } else { EdgeType::Removed };
        assert_eq!(edge.inner().edge_type(), expected);
        assert_eq!(simple.edge_type(), expected);
        assert_eq!(simple.nonce(), nonce);
    }
}

#[test]
fn next_nonce_is_the_next_odd_number() {
    assert_eq!(Edge::next_nonce(0), 1);
    assert_eq!(Edge::next_nonce(1), 3);
    assert_eq!(Edge::next_nonce(2), 3);
    assert_eq!(Edge::next_nonce(3), 5);
    assert_eq!(Edge::next_nonce(u64::MAX - 1), u64::MAX);
    let (edge, _, _) = signed_edge(7);
    assert_eq!(edge.inner().next(), 9);
}

#[test]
fn make_key_puts_the_smaller_peer_first() {
    let (sk0, sk1) = edge_secrets();
    let (peer0, peer1) = (edge_peer(&sk0), edge_peer(&sk1));
    let (low, high) = if peer0 < peer1 { (peer0.clone(), peer1.clone()) } else { (peer1.clone(), peer0.clone()) };
    assert_eq!(Edge::make_key(peer0.clone(), peer1.clone()), (low.clone(), high.clone()));
    assert_eq!(Edge::make_key(peer1.clone(), peer0.clone()), (low.clone(), high.clone()));
    assert_eq!(peer0.lt(&peer1), peer0 < peer1);
    assert_eq!(peer1.lt(&peer0), peer1 < peer0);
    assert!(!peer0.lt(&peer0));
    assert!(peer0.same(&peer0.clone()));
    assert!(!peer0.same(&peer1));
    let simple = SimpleEdge::new(peer1.clone(), peer0.clone(), 3);
    assert_eq!(simple.key(), &(low.clone(), high.clone()));
    let (edge, _, _) = signed_edge(3);
    assert_eq!(edge.inner().to_simple_edge().key(), &(low, high));
    assert_eq!(edge.inner().key(), edge.inner().get_pair());
}

#[test]
fn other_names_the_peer_at_the_far_end() {
    let (edge, sk0, sk1) = signed_edge(1);
    let (peer0, peer1) = (edge_peer(&sk0), edge_peer(&sk1));
    let stranger = edge_peer(&SecretKey::from_seed(KeyType::ED25519, "stranger"));
    assert_eq!(edge.inner().other(&peer0), Some(&peer1));
    assert_eq!(edge.inner().other(&peer1), Some(&peer0));
    assert_eq!(edge.inner().other(&stranger), None);
    assert!(edge.inner().contains_peer(&peer0));
    assert!(edge.inner().contains_peer(&peer1));
    assert!(!edge.inner().contains_peer(&stranger));
}

#[test]
fn fake_edge_keeps_the_order_given_and_has_empty_signatures() {
    let (sk0, sk1) = edge_secrets();
    let (peer0, peer1) = (edge_peer(&sk0), edge_peer(&sk1));
    let edge = Edge::make_fake_edge(peer1.clone(), peer0.clone(), 4);
    assert_eq!(edge.inner().key, (peer1, peer0));
    assert_eq!(edge.inner().nonce, 4);
    assert!(edge.inner().removal_info.is_none());
    assert_eq!(edge.inner().signature0, Signature::empty(Curve::ED25519));
    let expected = near_crypto::Signature::empty(KeyType::ED25519).try_to_vec().unwrap();
    assert_eq!(edge.inner().signature1.as_bytes(), &expected);
    assert!(!edge.inner().verify());
}

#[test]
fn hash_is_that_of_the_serialized_peers_and_nonce() {
    let (sk0, sk1) = edge_secrets();
    let (peer0, peer1) = (edge_peer(&sk0), edge_peer(&sk1));
    let theirs = near_primitives::hash::CryptoHash::hash_borsh(&(
        near_primitives::network::PeerId::new(sk0.public_key()),
        near_primitives::network::PeerId::new(sk1.public_key()),
        77u64,
    ));
    let ours = Edge::build_hash(&peer0, &peer1, 77);
    assert_eq!(ours.as_bytes().as_slice(), theirs.as_bytes());
    assert_eq!(EdgeInner::build_hash(&peer0, &peer1, 77), ours);
    assert!(ours != Edge::build_hash(&peer1, &peer0, 77));
    assert!(ours != Edge::build_hash(&peer0, &peer1, 78));
}

#[test]
fn hash_bytes_is_sha256() {
    let digest = CryptoHash::hash_bytes(&b"abc".to_vec());
    let expected: Vec<u8> = vec![
        0xba, 0x78, 0x16, 0xbf, 0x8f, 0x01, 0xcf, 0xea, 0x41, 0x41, 0x40, 0xde, 0x5d, 0xae, 0x22,
        0x23, 0xb0, 0x03, 0x61, 0xa3, 0x96, 0x17, 0x7a, 0x9c, 0xb4, 0x10, 0xff, 0x61, 0xf2, 0x00,
        0x15, 0xad,
    ];
    assert_eq!(digest.as_bytes(), &expected);
    assert_eq!(CryptoHash::new().as_bytes(), &vec![0u8; 32]);
    assert!(CryptoHash::from_bytes(vec![1u8; 31]).is_none());
    assert_eq!(CryptoHash::from_bytes(expected.clone()).unwrap(), digest);
}

#[test]
fn edge_survives_the_round_trip_through_bytes() {
    let (edge, sk0, _) = signed_edge(5);
    let bytes = edge.to_bytes();
    let back = Edge::from_bytes(&bytes).unwrap();
    assert_eq!(back.to_bytes(), bytes);
    assert_eq!(back.inner().key, edge.inner().key);
    assert_eq!(back.inner().nonce, 5);
    assert!(back.inner().verify());
    let peer0 = edge_peer(&sk0);
    let removed = edge.inner().removed_by(&peer0, edge_sign(&sk0, &edge.inner().removal_hash()));
    let bytes = removed.to_bytes();
    let back = EdgeInner::from_bytes(&bytes).unwrap();
    assert_eq!(back.to_bytes(), bytes);
    assert_eq!(back.nonce, 6);
    assert_eq!(back.removal_info, removed.inner().removal_info.clone());
    assert!(back.verify());
}

#[test]
fn edge_bytes_are_the_fields_in_their_order() {
    let (sk0, sk1) = edge_secrets();
    let (first, second) =
        if edge_peer(&sk0) < edge_peer(&sk1) { (sk0, sk1) } else { (sk1, sk0) };
    let (peer0, peer1) = (edge_peer(&first), edge_peer(&second));
    let hash = Edge::signing_hash(&peer0, &peer1, 0x0102030405060708);
    let (sig0, sig1) = (first.sign(hash.as_bytes()), second.sign(hash.as_bytes()));
    let edge = Edge::new(
        peer0.clone(),
        peer1.clone(),
        0x0102030405060708,
        edge_sign(&first, &hash),
        edge_sign(&second, &hash),
    );
    let none: Option<(bool, near_crypto::Signature)> = None;
    let expected = (
        first.public_key(),
        second.public_key(),
        0x0102030405060708u64,
        sig0.clone(),
        sig1.clone(),
        none,
    )
        .try_to_vec()
        .unwrap();
    assert_eq!(edge.to_bytes(), expected);
    let removal = first.sign(hash.as_bytes());
    let removed = EdgeInner {
        key: (peer0, peer1),
        nonce: 0x0102030405060708,
        signature0: edge_sign(&first, &hash),
        signature1: edge_sign(&second, &hash),
        removal_info: Some((true, edge_sign(&first, &hash))),
    };
    let expected = (
        first.public_key(),
        second.public_key(),
        0x0102030405060708u64,
        sig0,
        sig1,
        Some((true, removal)),
    )
        .try_to_vec()
        .unwrap();
    assert_eq!(removed.to_bytes(), expected);
}

#[test]
fn bytes_that_are_no_edge_are_turned_down() {
    let (edge, _, _) = signed_edge(5);
    let bytes = edge.to_bytes();
    assert_eq!(bytes.len(), 33 + 33 + 8 + 65 + 65 + 1);
    assert!(Edge::from_bytes(&Vec::new()).is_none());
    assert!(Edge::from_bytes(&bytes[..bytes.len() - 1].to_vec()).is_none());
    let mut longer = bytes.clone();
    longer.push(0);
    assert!(Edge::from_bytes(&longer).is_none());
    let mut bad_tag = bytes.clone();
    bad_tag[0] = 2;
    assert!(Edge::from_bytes(&bad_tag).is_none());
    let mut bad_option = bytes.clone();
    let last = bad_option.len() - 1;
    bad_option[last] = 2;
    assert!(Edge::from_bytes(&bad_option).is_none());
    let mut bad_signature = bytes.clone();
    bad_signature[33 + 33 + 8 + 64] |= 0xe0;
    assert!(Edge::from_bytes(&bad_signature).is_none());
    // the peers out of order
    let mut swapped = bytes[33..66].to_vec();
    swapped.extend_from_slice(&bytes[..33]);
    swapped.extend_from_slice(&bytes[66..]);
    assert!(Edge::from_bytes(&swapped).is_none());
}

#[test]
fn keys_and_signatures_are_checked_when_made_from_bytes() {
    assert!(PublicKey::from_bytes(vec![0u8; 33]).is_some());
    assert!(PublicKey::from_bytes(vec![0u8; 32]).is_none());
    assert!(PublicKey::from_bytes(vec![1u8; 65]).is_some());
    assert!(PublicKey::from_bytes(vec![1u8; 33]).is_none());
    assert!(PublicKey::from_bytes(vec![2u8; 33]).is_none());
    assert!(Signature::from_bytes(vec![0u8; 65]).is_some());
    assert!(Signature::from_bytes(vec![1u8; 66]).is_some());
    assert!(Signature::from_bytes(vec![1u8; 65]).is_none());
    let mut high = vec![0u8; 65];
    high[64] = 0x20;
    assert!(Signature::from_bytes(high).is_none());
    let key = PublicKey::empty(Curve::SECP256K1);
    assert_eq!(key.key_type(), Curve::SECP256K1);
    assert_eq!(key.key_data(), vec![0u8; 64]);
    assert_eq!(PublicKey::empty(Curve::ED25519).as_bytes(), &vec![0u8; 33]);
    assert_eq!(Signature::empty(Curve::SECP256K1).key_type(), Curve::SECP256K1);
    assert_eq!(Signature::empty(Curve::ED25519).key_type(), Curve::ED25519);
}

fn their_peer(secret: &SecretKey) -> near_primitives::network::PeerId {
    near_primitives::network::PeerId::new(secret.public_key())
}

#[test]
fn edges_of_the_network_crate_are_read_and_verified() {
    let (sk0, sk1) = edge_secrets();
    for nonce in [1u64, 3, 1_000_001] {
        let half = PartialEdgeInfo::new(&their_peer(&sk0), &their_peer(&sk1), nonce, &sk1);
        let theirs = TheirEdge::build_with_secret_key(
            their_peer(&sk0),
            their_peer(&sk1),
            nonce,
            &sk0,
            half.signature.clone(),
        );
        assert!(theirs.verify());
        let bytes = theirs.try_to_vec().unwrap();
        let ours = Edge::from_bytes(&bytes).unwrap();
        assert!(ours.inner().verify());
        assert_eq!(ours.to_bytes(), bytes);
        assert_eq!(ours.inner().nonce, nonce);
        let info = half_edge(
            half.nonce,
            Signature::from_bytes(half.signature.try_to_vec().unwrap()).unwrap(),
        );
        assert!(Edge::partial_verify(edge_peer(&sk0), edge_peer(&sk1), &info));
        assert!(TheirEdge::partial_verify(&their_peer(&sk0), &their_peer(&sk1), &half));

        for (who, secret) in [(&sk0, &sk0), (&sk1, &sk1), (&sk0, &sk1)] {
            let removed = theirs.remove_edge(their_peer(who), secret);
            let bytes = removed.try_to_vec().unwrap();
            let ours = Edge::from_bytes(&bytes).unwrap();
            assert_eq!(ours.to_bytes(), bytes);
            assert_eq!(ours.inner().verify(), removed.verify());
            assert_eq!(removed.verify(), std::ptr::eq(who, secret));
        }
    }
}

#[test]
fn our_edges_are_read_by_the_network_crate() {
    let (edge, sk0, sk1) = signed_edge(9);
    let theirs = TheirEdge::try_from_slice(&edge.to_bytes()).unwrap();
    assert!(theirs.verify());
    assert_eq!(theirs.nonce(), 9);
    assert_eq!(theirs.key().0.try_to_vec().unwrap(), edge.inner().key.0.as_bytes().clone());
    let removed = edge
        .inner()
        .removed_by(&edge_peer(&sk1), edge_sign(&sk1, &edge.inner().removal_hash()));
    let theirs = TheirEdge::try_from_slice(&removed.to_bytes()).unwrap();
    assert!(theirs.verify());
    assert_eq!(
        theirs.try_to_vec().unwrap(),
        TheirEdge::try_from_slice(&edge.to_bytes())
            .unwrap()
            .remove_edge(their_peer(&sk1), &sk1)
            .try_to_vec()
            .unwrap()
    );
    // an edge signed wrongly is turned down by both
    let wrong = Edge::new(
        edge_peer(&sk0),
        edge_peer(&sk1),
        9,
        edge_sign(&sk1, &Edge::signing_hash(&edge_peer(&sk0), &edge_peer(&sk1), 9)),
        edge_sign(&sk0, &Edge::signing_hash(&edge_peer(&sk0), &edge_peer(&sk1), 9)),
    );
    assert!(!wrong.inner().verify());
    assert!(!TheirEdge::try_from_slice(&wrong.to_bytes()).unwrap().verify());
}

fn secp_secrets() -> (SecretKey, SecretKey) {
    (
        SecretKey::from_seed(KeyType::SECP256K1, "curve-peer-0"),
        SecretKey::from_seed(KeyType::SECP256K1, "curve-peer-1"),
    )
}

#[test]
fn secp256k1_edge_verifies() {
    let (sk0, sk1) = secp_secrets();
    let (peer0, peer1) = (edge_peer(&sk0), edge_peer(&sk1));
    assert_eq!(peer0.public_key().key_type(), Curve::SECP256K1);
    let hash = Edge::signing_hash(&peer0, &peer1, 5);
    let (sig0, sig1) = (edge_sign(&sk0, &hash), edge_sign(&sk1, &hash));
    assert_eq!(sig0.key_type(), Curve::SECP256K1);
    assert!(sig0.verify(hash.as_bytes(), peer0.public_key()));
    assert!(sig1.verify(hash.as_bytes(), peer1.public_key()));
    assert!(!sig0.verify(hash.as_bytes(), peer1.public_key()));
    assert!(!sig1.verify(hash.as_bytes(), peer0.public_key()));
    let edge = Edge::new(peer0.clone(), peer1.clone(), 5, sig0.clone(), sig1.clone());
    assert!(edge.inner().verify());
    let crossed = Edge::new(peer0.clone(), peer1.clone(), 5, sig1.clone(), sig0);
    assert!(!crossed.inner().verify());
    let info = half_edge(5, sig1.clone());
    assert!(Edge::partial_verify(peer0.clone(), peer1.clone(), &info));
    assert!(!Edge::partial_verify(peer1.clone(), peer0.clone(), &info));
    assert!(!Edge::partial_verify(peer0, peer1, &half_edge(7, sig1)));
}

#[test]
fn secp256k1_answers_agree_with_the_curve_library() {
    let (sk0, sk1) = secp_secrets();
    let hash = Edge::signing_hash(&edge_peer(&sk0), &edge_peer(&sk1), 1);
    let other = Edge::signing_hash(&edge_peer(&sk0), &edge_peer(&sk1), 3);
    for (signer, data, key) in [
        (&sk0, &hash, &sk0),
        (&sk0, &hash, &sk1),
        (&sk0, &other, &sk0),
        (&sk1, &hash, &sk1),
        (&sk1, &other, &sk0),
    ] {
        let theirs = signer.sign(hash.as_bytes()).verify(data.as_bytes(), &key.public_key());
        let ours = edge_sign(signer, &hash).verify(data.as_bytes(), edge_peer(key).public_key());
        assert_eq!(ours, theirs);
    }
}

#[test]
fn secp256k1_signature_holds_whatever_way_of_recovery_it_names() {
    let (sk0, _) = secp_secrets();
    let peer0 = edge_peer(&sk0);
    let data = vec![7u8; 32];
    let signed = secp256k1_signed(&sk0, &data);
    for way in 0u8..4 {
        let mut bytes = signed.clone();
        bytes[65] = way;
        let theirs = near_crypto::Signature::try_from_slice(&bytes)
            .unwrap()
            .verify(&data, &sk0.public_key());
        assert!(theirs);
        assert!(Signature::from_bytes(bytes).unwrap().verify(&data, peer0.public_key()));
    }
}

fn secp256k1_signed(secret: &SecretKey, data: &[u8]) -> Vec<u8> {
    secret.sign(data).try_to_vec().unwrap()
}

#[test]
fn malformed_secp256k1_input_is_turned_down() {
    let (sk0, _) = secp_secrets();
    let peer0 = edge_peer(&sk0);
    let data = vec![7u8; 32];
    let signed = secp256k1_signed(&sk0, &data);
    let good = Signature::from_bytes(signed.clone()).unwrap();
    assert!(good.verify(&data, peer0.public_key()));
    // data of another length than a digest
    assert!(!good.verify(&vec![7u8; 31], peer0.public_key()));
    assert!(!good.verify(&vec![7u8; 33], peer0.public_key()));
    assert!(!good.verify(&Vec::new(), peer0.public_key()));
    // a last byte that names no way of recovery
    for way in [4u8, 5, 27, 255] {
        let mut bytes = signed.clone();
        bytes[65] = way;
        assert!(!Signature::from_bytes(bytes).unwrap().verify(&data, peer0.public_key()));
    }
    // numbers that are no signature
    assert!(!Signature::empty(Curve::SECP256K1).verify(&data, peer0.public_key()));
    let mut bytes = vec![0xffu8; 66];
    bytes[0] = 1;
    bytes[65] = 0;
    assert!(!Signature::from_bytes(bytes).unwrap().verify(&data, peer0.public_key()));
    // keys that are no point of the curve
    assert!(!good.verify(&data, &PublicKey::empty(Curve::SECP256K1)));
    let mut key = vec![0xffu8; 65];
    key[0] = 1;
    assert!(!good.verify(&data, &PublicKey::from_bytes(key).unwrap()));
    let mut key = peer0.public_key().as_bytes().clone();
    key[64] ^= 1;
    assert!(!good.verify(&data, &PublicKey::from_bytes(key).unwrap()));
    // a changed signature, and a signature of other data
    let mut bytes = signed.clone();
    bytes[10] ^= 1;
    assert!(!Signature::from_bytes(bytes).unwrap().verify(&data, peer0.public_key()));
    assert!(!good.verify(&vec![8u8; 32], peer0.public_key()));
    // a key of the other curve
    let (ed, _) = edge_secrets();
    assert!(!good.verify(&data, edge_peer(&ed).public_key()));
}

#[test]
fn secret_key_is_read_from_its_text() {
    for curve in [KeyType::ED25519, KeyType::SECP256K1] {
        let secret = SecretKey::from_seed(curve, "signer");
        let ours = our_secret(&secret);
        assert_eq!(ours.public_key(), edge_peer(&secret).public_key());
        assert_eq!(ours.key_type(), edge_peer(&secret).public_key().key_type());
    }
    assert!(OurSecretKey::from_text(String::new()).is_none());
    assert!(OurSecretKey::from_text("ed25519".to_string()).is_none());
    assert!(OurSecretKey::from_text("ed25519:".to_string()).is_none());
    assert!(OurSecretKey::from_text("ed25519:0OIl".to_string()).is_none());
    assert!(OurSecretKey::from_text("secp256k1:1111".to_string()).is_none());
    assert!(OurSecretKey::from_text("rsa:1111".to_string()).is_none());
    // the public key is no secret key
    let secret = SecretKey::from_seed(KeyType::ED25519, "signer");
    assert!(OurSecretKey::from_text(secret.public_key().to_string()).is_none());
}

#[test]
fn ed25519_secret_key_with_an_unsound_public_half_is_turned_down() {
    let secret = SecretKey::from_seed(KeyType::ED25519, "signer");
    let mut pair = match &secret {
        SecretKey::ED25519(pair) => pair.0,
        _ => unreachable!(),
    };
    // a public half that is not sound
    pair[32..].copy_from_slice(&[0u8; 32]);
    pair[32] = 2;
    let bent = SecretKey::ED25519(near_crypto::ED25519SecretKey(pair));
    assert!(OurSecretKey::from_text(bent.to_string()).is_none());
    // the neutral point is sound, though it belongs to no secret
    pair[32] = 1;
    let neutral = SecretKey::ED25519(near_crypto::ED25519SecretKey(pair));
    let ours = OurSecretKey::from_text(neutral.to_string()).unwrap();
    let data = vec![3u8; 32];
    assert_eq!(ours.sign(&data).as_bytes(), &neutral.sign(&data).try_to_vec().unwrap());
}

#[test]
fn signatures_are_those_of_the_key() {
    for curve in [KeyType::ED25519, KeyType::SECP256K1] {
        let secret = SecretKey::from_seed(curve, "signer");
        let ours = our_secret(&secret);
        let peer = edge_peer(&secret);
        for data in [vec![0u8; 32], vec![9u8; 32], (0u8..32).collect::<Vec<u8>>()] {
            let signature = ours.sign(&data);
            assert_eq!(signature.as_bytes(), &secret.sign(&data).try_to_vec().unwrap());
            assert!(signature.verify(&data, peer.public_key()));
        }
    }
    let secret = SecretKey::from_seed(KeyType::ED25519, "signer");
    let ours = our_secret(&secret);
    for data in [Vec::new(), vec![1u8], vec![5u8; 100]] {
        let signature = ours.sign(&data);
        assert_eq!(signature.as_bytes(), &secret.sign(&data).try_to_vec().unwrap());
        assert!(signature.verify(&data, edge_peer(&secret).public_key()));
    }
}

#[test]
fn edge_built_with_a_secret_key_verifies() {
    for (curve0, curve1) in [
        (KeyType::ED25519, KeyType::ED25519),
        (KeyType::SECP256K1, KeyType::ED25519),
        (KeyType::SECP256K1, KeyType::SECP256K1),
    ] {
        let sk0 = SecretKey::from_seed(curve0, "builder-0");
        let sk1 = SecretKey::from_seed(curve1, "builder-1");
        let (peer0, peer1) = (edge_peer(&sk0), edge_peer(&sk1));
        let info = EdgeInfo::new(&peer0, &peer1, 3, &our_secret(&sk1));
        assert_eq!(info.nonce, 3);
        assert!(Edge::partial_verify(peer0.clone(), peer1.clone(), &info));
        let edge = Edge::build_with_secret_key(
            peer0.clone(),
            peer1.clone(),
            3,
            &our_secret(&sk0),
            info.signature.clone(),
        );
        assert!(edge.inner().verify());
        let hash = Edge::signing_hash(&peer0, &peer1, 3);
        let direct = Edge::new(
            peer0.clone(),
            peer1.clone(),
            3,
            edge_sign(&sk0, &hash),
            edge_sign(&sk1, &hash),
        );
        assert_eq!(edge.to_bytes(), direct.to_bytes());
        // the other party builds the same edge
        let back = EdgeInfo::new(&peer1, &peer0, 3, &our_secret(&sk0));
        let other =
            Edge::build_with_secret_key(peer1.clone(), peer0.clone(), 3, &our_secret(&sk1), back.signature);
        assert_eq!(other.to_bytes(), edge.to_bytes());
        // signed with the wrong key the edge does not verify
        let wrong =
            Edge::build_with_secret_key(peer0, peer1, 3, &our_secret(&sk1), info.signature);
        assert!(!wrong.inner().verify());
    }
}

#[test]
fn edge_removed_with_a_secret_key_verifies() {
    let (edge, sk0, sk1) = signed_edge(7);
    let (peer0, peer1) = (edge_peer(&sk0), edge_peer(&sk1));
    for (who, secret, valid) in
        [(&peer0, &sk0, true), (&peer1, &sk1, true), (&peer0, &sk1, false), (&peer1, &sk0, false)]
    {
        let removed = edge.inner().remove_edge(who.clone(), &our_secret(secret));
        assert_eq!(removed.inner().nonce, 8);
        assert_eq!(removed.inner().edge_type(), EdgeType::Removed);
        assert_eq!(removed.inner().signature0, edge.inner().signature0);
        assert_eq!(removed.inner().signature1, edge.inner().signature1);
        let (party, signature) = removed.inner().removal_info.clone().unwrap();
        assert_eq!(party, *who == edge.inner().key.0);
        assert_eq!(signature, edge_sign(secret, &edge.inner().removal_hash()));
        assert_eq!(removed.inner().verify(), valid);
    }
}
