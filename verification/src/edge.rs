//! Edges: signed records that two peers are linked, or that a link is gone.

use std::sync::Arc;
use vstd::prelude::*;
use crate::bytes::{
    bytes_append, le_bytes, lemma_lex_asymmetric, lemma_lex_total, lex_lt, push_le_bytes,
};
use crate::crypto::{secret_public_key, sha256_digest, signed_by};
use crate::keys::{signature_valid, CryptoHash, KeyType, PeerId, SecretKey, Signature};

verus! {

/// Whether an edge says that a link exists or that it is gone.
#[derive(Clone, Copy, Debug, PartialEq, Eq, Hash, Structural)]
pub enum EdgeType {
    Added,
    Removed,
}

/// The type of an edge with the given nonce: odd nonces add, even ones remove.
pub open spec fn edge_type_of(nonce: u64) -> EdgeType {
    if nonce % 2 == 1 {
        EdgeType::Added
    } else {
        EdgeType::Removed
    }
}

/// The next nonce that adds: the least odd number above `nonce`.
pub open spec fn next_nonce_of(nonce: u64) -> int {
    if nonce % 2 == 1 {
        nonce + 2
    } else {
        nonce + 1
    }
}

/// The two peers in their order: the smaller one first.
pub open spec fn key_of(peer0: Seq<u8>, peer1: Seq<u8>) -> (Seq<u8>, Seq<u8>) {
    if lex_lt(peer0, peer1) {
        (peer0, peer1)
    } else {
        (peer1, peer0)
    }
}

/// The hash that the parties of an edge sign: the digest of the two keys and
/// the eight bytes of the nonce, one after the other.
pub open spec fn edge_hash(peer0: Seq<u8>, peer1: Seq<u8>, nonce: u64) -> Seq<u8> {
    sha256_digest(peer0 + peer1 + le_bytes(nonce))
}

/// The hash that a party signs to propose the link between two peers, in
/// whichever order they are named.
pub open spec fn signing_hash(peer0: Seq<u8>, peer1: Seq<u8>, nonce: u64) -> Seq<u8> {
    let key = key_of(peer0, peer1);
    edge_hash(key.0, key.1, nonce)
}

/// One party's half of a new edge: the nonce it proposes and its signature.
#[derive(Clone, Debug, PartialEq, Eq)]
pub struct EdgeInfo {
    pub nonce: u64,
    pub signature: Signature,
}

impl EdgeInfo {
    /// The half edge of the party with the key `secret_key` for the link
    /// between the two peers: the nonce, and the party's signature of the hash
    /// for the two peers and the nonce.
    pub fn new(peer0: &PeerId, peer1: &PeerId, nonce: u64, secret_key: &SecretKey) -> (info:
        EdgeInfo)
        ensures
            info.nonce == nonce,
            info.signature@ == signed_by(secret_key@, signing_hash(peer0@, peer1@, nonce)),
    {
        let data = Edge::signing_hash(peer0, peer1, nonce);
        let signature = secret_key.sign(data.as_bytes());
        EdgeInfo { nonce, signature }
    }
}

/// An edge as a value: the two peers, the nonce, the signatures of the two
/// peers, and for a removal who removes and that peer's signature.
pub struct EdgeView {
    pub key: (Seq<u8>, Seq<u8>),
    pub nonce: u64,
    pub signature0: Seq<u8>,
    pub signature1: Seq<u8>,
    pub removal_info: Option<(bool, Seq<u8>)>,
}

/// The view of the edge that adds the link between `peer0` and `peer1`: the
/// peers in their order, each signature with its peer.
pub open spec fn added_edge(
    peer0: Seq<u8>,
    peer1: Seq<u8>,
    nonce: u64,
    signature0: Seq<u8>,
    signature1: Seq<u8>,
) -> EdgeView {
    if lex_lt(peer0, peer1) {
        EdgeView { key: (peer0, peer1), nonce, signature0, signature1, removal_info: None }
    } else {
        EdgeView {
            key: (peer1, peer0),
            nonce,
            signature0: signature1,
            signature1: signature0,
            removal_info: None,
        }
    }
}

/// The view of the edge that removes what `edge` added: the nonce one
/// higher, the signatures kept, and who removes with that peer's signature.
pub open spec fn removed_edge(edge: EdgeView, my_peer: Seq<u8>, signature: Seq<u8>) -> EdgeView {
    EdgeView {
        key: edge.key,
        nonce: (edge.nonce + 1) as u64,
        signature0: edge.signature0,
        signature1: edge.signature1,
        removal_info: Some((edge.key.0 == my_peer, signature)),
    }
}

/// Whether an edge is valid. The peers are in their order. An edge that adds
/// has no removal and both peers' signatures of the hash with its nonce. An
/// edge that removes has a nonce above 0, both peers' signatures of the hash
/// with the nonce before, and the signature of the removing peer, the first
/// peer where the flag is set, of the hash with its nonce.
pub open spec fn edge_valid(edge: EdgeView) -> bool {
    let first = edge.key.0;
    let second = edge.key.1;
    &&& lex_lt(first, second)
    &&& if edge.nonce % 2 == 1 {
        &&& edge.removal_info is None
        &&& signature_valid(edge.signature0, edge_hash(first, second, edge.nonce), first)
        &&& signature_valid(edge.signature1, edge_hash(first, second, edge.nonce), second)
    } else {
        &&& edge.nonce != 0
        &&& signature_valid(
            edge.signature0,
            edge_hash(first, second, (edge.nonce - 1) as u64),
            first,
        )
        &&& signature_valid(
            edge.signature1,
            edge_hash(first, second, (edge.nonce - 1) as u64),
            second,
        )
        &&& edge.removal_info matches Some((party, signature)) && signature_valid(
            signature,
            edge_hash(first, second, edge.nonce),
            if party {
                first
            } else {
                second
            },
        )
    }
}

/// An edge made of two peers' signatures of the hash they were to sign is
/// valid, in whichever order the peers are named.
pub proof fn lemma_signed_edge_is_valid(
    peer0: Seq<u8>,
    peer1: Seq<u8>,
    nonce: u64,
    signature0: Seq<u8>,
    signature1: Seq<u8>,
)
    requires
        peer0 != peer1,
        nonce % 2 == 1,
        signature_valid(signature0, signing_hash(peer0, peer1, nonce), peer0),
        signature_valid(signature1, signing_hash(peer0, peer1, nonce), peer1),
    ensures
        edge_valid(added_edge(peer0, peer1, nonce, signature0, signature1)),
{
    lemma_lex_total(peer0, peer1);
    lemma_lex_asymmetric(peer0, peer1);
    lemma_lex_asymmetric(peer1, peer0);
}

/// Whether `secret_key` is a valid key of `peer`: `peer` is its public key,
/// and its signature of a digest holds under `peer`.
pub open spec fn signs_for(secret_key: Seq<char>, peer: Seq<u8>) -> bool {
    &&& secret_public_key(secret_key) == Some(peer)
    &&& forall|message: Seq<u8>| #[trigger]
        signature_valid(
            signed_by(secret_key, sha256_digest(message)),
            sha256_digest(message),
            peer,
        )
}

/// The half edge that a peer signed with a valid key holds under that peer,
/// in whichever order the two peers were named when it was signed.
pub proof fn lemma_half_edge_of_valid_key_is_valid(
    peer0: Seq<u8>,
    peer1: Seq<u8>,
    nonce: u64,
    key1: Seq<char>,
)
    requires
        signs_for(key1, peer1),
    ensures
        signing_hash(peer1, peer0, nonce) == signing_hash(peer0, peer1, nonce),
        signature_valid(
            signed_by(key1, signing_hash(peer1, peer0, nonce)),
            signing_hash(peer0, peer1, nonce),
            peer1,
        ),
{
    lemma_lex_total(peer0, peer1);
    lemma_lex_asymmetric(peer0, peer1);
    lemma_lex_asymmetric(peer1, peer0);
    let key = key_of(peer0, peer1);
    let message = key.0 + key.1 + le_bytes(nonce);
    assert(signing_hash(peer0, peer1, nonce) == sha256_digest(message));
    assert(signature_valid(signed_by(key1, sha256_digest(message)), sha256_digest(message), peer1));
}

/// An edge that two peers signed with valid keys is valid, in whichever
/// order the peers are named, and so is its removal signed by either of
/// them.
pub proof fn lemma_edge_of_valid_keys_is_valid(
    peer0: Seq<u8>,
    peer1: Seq<u8>,
    nonce: u64,
    key0: Seq<char>,
    key1: Seq<char>,
)
    requires
        peer0 != peer1,
        nonce % 2 == 1,
        signs_for(key0, peer0),
        signs_for(key1, peer1),
    ensures
        ({
            let hash = signing_hash(peer0, peer1, nonce);
            let edge = added_edge(peer0, peer1, nonce, signed_by(key0, hash), signed_by(key1, hash));
            let after = edge_hash(edge.key.0, edge.key.1, (nonce + 1) as u64);
            &&& edge_valid(edge)
            &&& nonce < u64::MAX ==> edge_valid(removed_edge(edge, peer0, signed_by(key0, after)))
                && edge_valid(removed_edge(edge, peer1, signed_by(key1, after)))
        }),
{
    let key = key_of(peer0, peer1);
    let hash = signing_hash(peer0, peer1, nonce);
    let edge = added_edge(peer0, peer1, nonce, signed_by(key0, hash), signed_by(key1, hash));
    let message = key.0 + key.1 + le_bytes(nonce);
    assert(hash == sha256_digest(message));
    assert(signature_valid(signed_by(key0, sha256_digest(message)), sha256_digest(message), peer0));
    assert(signature_valid(signed_by(key1, sha256_digest(message)), sha256_digest(message), peer1));
    lemma_signed_edge_is_valid(peer0, peer1, nonce, signed_by(key0, hash), signed_by(key1, hash));
    if nonce < u64::MAX {
        let next = key.0 + key.1 + le_bytes((nonce + 1) as u64);
        let after = edge_hash(edge.key.0, edge.key.1, (nonce + 1) as u64);
        assert(edge.key == key);
        assert(after == sha256_digest(next));
        assert(signature_valid(signed_by(key0, sha256_digest(next)), sha256_digest(next), peer0));
        assert(signature_valid(signed_by(key1, sha256_digest(next)), sha256_digest(next), peer1));
        lemma_removal_is_valid(edge, peer0, signed_by(key0, after));
        lemma_removal_is_valid(edge, peer1, signed_by(key1, after));
    }
}

/// The removal of a valid edge that adds, signed by one of its peers, is
/// valid.
pub proof fn lemma_removal_is_valid(edge: EdgeView, my_peer: Seq<u8>, signature: Seq<u8>)
    requires
        edge_valid(edge),
        edge.nonce % 2 == 1,
        edge.nonce < u64::MAX,
        my_peer == edge.key.0 || my_peer == edge.key.1,
        signature_valid(
            signature,
            edge_hash(edge.key.0, edge.key.1, (edge.nonce + 1) as u64),
            my_peer,
        ),
    ensures
        edge_valid(removed_edge(edge, my_peer, signature)),
{
    lemma_lex_asymmetric(edge.key.0, edge.key.1);
}

/// An edge. The peers of a valid edge are in their order, so `key.0` comes
/// before `key.1`.
#[derive(Debug, PartialEq, Eq)]
pub struct EdgeInner {
    /// The two peers; in a valid edge the smaller one first.
    pub key: (PeerId, PeerId),
    /// Odd where the edge adds the link, even where it removes it.
    pub nonce: u64,
    /// The signatures of the two peers under the edge that adds.
    pub signature0: Signature,
    pub signature1: Signature,
    /// For a removal: whether the first peer removes, and the signature of
    /// the peer that removes.
    pub removal_info: Option<(bool, Signature)>,
}

impl View for EdgeInner {
    type V = EdgeView;

    open spec fn view(&self) -> EdgeView {
        EdgeView {
            key: (self.key.0@, self.key.1@),
            nonce: self.nonce,
            signature0: self.signature0@,
            signature1: self.signature1@,
            removal_info: match self.removal_info {
                Some((party, signature)) => Some((party, signature@)),
                None => None,
            },
        }
    }
}

impl Clone for EdgeInner {
    fn clone(&self) -> (copy: Self)
        ensures
            copy@ == self@,
    {
        self.dup()
    }
}

impl EdgeInner {
    /// The edge that adds the link between `peer0` and `peer1`, with the
    /// signature of each. The peers are put in their order.
    pub fn new(
        peer0: PeerId,
        peer1: PeerId,
        nonce: u64,
        signature0: Signature,
        signature1: Signature,
    ) -> (edge: EdgeInner)
        ensures
            edge@ == added_edge(peer0@, peer1@, nonce, signature0@, signature1@),
    {
        if peer0.lt(&peer1) {
            EdgeInner { key: (peer0, peer1), nonce, signature0, signature1, removal_info: None }
        } else {
            EdgeInner {
                key: (peer1, peer0),
                nonce,
                signature0: signature1,
                signature1: signature0,
                removal_info: None,
            }
        }
    }

    /// A copy of the edge.
    pub fn dup(&self) -> (copy: EdgeInner)
        ensures
            copy@ == self@,
    {
        let removal_info = match &self.removal_info {
            Some((party, signature)) => Some((*party, signature.dup())),
            None => None,
        };
        EdgeInner {
            key: (self.key.0.dup(), self.key.1.dup()),
            nonce: self.nonce,
            signature0: self.signature0.dup(),
            signature1: self.signature1.dup(),
            removal_info,
        }
    }

    /// The two peers of the edge.
    pub fn key(&self) -> (key: &(PeerId, PeerId))
        ensures
            *key == self.key,
    {
        &self.key
    }

    /// The two peers of the edge.
    pub fn get_pair(&self) -> (key: &(PeerId, PeerId))
        ensures
            *key == self.key,
    {
        &self.key
    }

    /// The edge without its signatures.
    pub fn to_simple_edge(&self) -> (simple: SimpleEdge)
        ensures
            simple.key_view() == key_of(self.key.0@, self.key.1@),
            simple.nonce_view() == self.nonce,
    {
        SimpleEdge::new(self.key.0.dup(), self.key.1.dup(), self.nonce)
    }

    /// The hash that the parties sign for the peers `peer0` and `peer1`, in
    /// this order, and `nonce`.
    pub fn build_hash(peer0: &PeerId, peer1: &PeerId, nonce: u64) -> (hash: CryptoHash)
        ensures
            hash@ == edge_hash(peer0@, peer1@, nonce),
    {
        let mut data: Vec<u8> = Vec::new();
        bytes_append(&mut data, peer0.as_bytes());
        bytes_append(&mut data, peer1.as_bytes());
        push_le_bytes(&mut data, nonce);
        assert(data@ =~= peer0@ + peer1@ + le_bytes(nonce));
        CryptoHash::hash_bytes(&data)
    }

    /// The hash for this edge's peers and nonce.
    fn hash(&self) -> (hash: CryptoHash)
        ensures
            hash@ == edge_hash(self.key.0@, self.key.1@, self.nonce),
    {
        Self::build_hash(&self.key.0, &self.key.1, self.nonce)
    }

    /// The hash for this edge's peers and the nonce before.
    fn prev_hash(&self) -> (hash: CryptoHash)
        requires
            self.nonce > 0,
        ensures
            hash@ == edge_hash(self.key.0@, self.key.1@, (self.nonce - 1) as u64),
    {
        Self::build_hash(&self.key.0, &self.key.1, self.nonce - 1)
    }

    /// The hash that the peer who removes this edge signs: the hash for this
    /// edge's peers and the next nonce.
    pub fn removal_hash(&self) -> (hash: CryptoHash)
        requires
            self.nonce < u64::MAX,
        ensures
            hash@ == edge_hash(self.key.0@, self.key.1@, (self.nonce + 1) as u64),
    {
        Self::build_hash(&self.key.0, &self.key.1, self.nonce + 1)
    }

    /// The edge that removes what this edge added, signed by `my_peer_id`,
    /// the peer that removes, with its key `sk`.
    pub fn remove_edge(&self, my_peer_id: PeerId, sk: &SecretKey) -> (edge: Edge)
        requires
            edge_type_of(self.nonce) == EdgeType::Added,
            self.nonce < u64::MAX,
        ensures
            edge@ == removed_edge(
                self@,
                my_peer_id@,
                signed_by(sk@, edge_hash(self.key.0@, self.key.1@, (self.nonce + 1) as u64)),
            ),
    {
        let hash = self.removal_hash();
        let signature = sk.sign(hash.as_bytes());
        self.removed_by(&my_peer_id, signature)
    }

    /// The edge that removes what this edge added. `signature` is the
    /// signature of `removal_hash` by `my_peer_id`, the peer that removes.
    pub fn removed_by(&self, my_peer_id: &PeerId, signature: Signature) -> (edge: Edge)
        requires
            edge_type_of(self.nonce) == EdgeType::Added,
            self.nonce < u64::MAX,
        ensures
            edge@ == removed_edge(self@, my_peer_id@, signature@),
    {
        let mut edge = self.dup();
        edge.nonce = edge.nonce + 1;
        let me = edge.key.0.same(my_peer_id);
        edge.removal_info = Some((me, signature));
        Edge(Arc::new(edge))
    }

    /// Whether the edge is valid.
    pub fn verify(&self) -> (valid: bool)
        ensures
            valid == edge_valid(self@),
    {
        if !self.key.0.lt(&self.key.1) {
            return false;
        }
        match self.edge_type() {
            EdgeType::Added => {
                let data = self.hash();
                self.removal_info.is_none() && self.signature0.verify(
                    data.as_bytes(),
                    self.key.0.public_key(),
                ) && self.signature1.verify(data.as_bytes(), self.key.1.public_key())
            },
            EdgeType::Removed => {
                if self.nonce == 0 {
                    return false;
                }
                let add_hash = self.prev_hash();
                if !self.signature0.verify(add_hash.as_bytes(), self.key.0.public_key())
                    || !self.signature1.verify(add_hash.as_bytes(), self.key.1.public_key()) {
                    return false;
                }
                match &self.removal_info {
                    Some((party, signature)) => {
                        let peer = if *party {
                            &self.key.0
                        } else {
                            &self.key.1
                        };
                        let del_hash = self.hash();
                        signature.verify(del_hash.as_bytes(), peer.public_key())
                    },
                    None => false,
                }
            },
        }
    }

    /// Whether the edge adds or removes: it adds exactly when its nonce is
    /// odd.
    pub fn edge_type(&self) -> (edge_type: EdgeType)
        ensures
            edge_type == edge_type_of(self.nonce),
            (edge_type == EdgeType::Added) == (self.nonce % 2 == 1),
    {
        if self.nonce % 2 == 1 {
            EdgeType::Added
        } else {
            EdgeType::Removed
        }
    }

    /// The nonce of the next edge that adds this link.
    pub fn next(&self) -> (nonce: u64)
        requires
            next_nonce_of(self.nonce) <= u64::MAX,
        ensures
            nonce == next_nonce_of(self.nonce),
    {
        Edge::next_nonce(self.nonce)
    }

    /// Whether `peer_id` is one of the two peers.
    pub fn contains_peer(&self, peer_id: &PeerId) -> (held: bool)
        ensures
            held == (self.key.0@ == peer_id@ || self.key.1@ == peer_id@),
    {
        self.key.0.same(peer_id) || self.key.1.same(peer_id)
    }

    /// The peer of this edge that is not `me`, if `me` is one of the two.
    pub fn other(&self, me: &PeerId) -> (peer: Option<&PeerId>)
        ensures
            self.key.0@ == me@ ==> peer == Some(&self.key.1),
            self.key.0@ != me@ && self.key.1@ == me@ ==> peer == Some(&self.key.0),
            self.key.0@ != me@ && self.key.1@ != me@ ==> peer.is_none(),
    {
        if self.key.0.same(me) {
            Some(&self.key.1)
        } else if self.key.1.same(me) {
            Some(&self.key.0)
        } else {
            None
        }
    }
}

/// An edge that many tables share. It is never changed: a newer edge for the
/// same peers takes its place.
#[derive(Clone, Debug, PartialEq, Eq)]
pub struct Edge(pub Arc<EdgeInner>);

impl View for Edge {
    type V = EdgeView;

    open spec fn view(&self) -> EdgeView {
        (*self.0)@
    }
}

impl Edge {
    /// The edge that adds the link between `peer0` and `peer1`, with the
    /// signature of each. The peers are put in their order.
    pub fn new(
        peer0: PeerId,
        peer1: PeerId,
        nonce: u64,
        signature0: Signature,
        signature1: Signature,
    ) -> (edge: Edge)
        ensures
            edge@ == added_edge(peer0@, peer1@, nonce, signature0@, signature1@),
    {
        Edge(Arc::new(EdgeInner::new(peer0, peer1, nonce, signature0, signature1)))
    }

    /// The edge that adds the link between `peer0` and `peer1`, made by the
    /// party `peer0`: with its own signature, made with `secret_key`, and the
    /// signature that the other party sent.
    pub fn build_with_secret_key(
        peer0: PeerId,
        peer1: PeerId,
        nonce: u64,
        secret_key: &SecretKey,
        signature1: Signature,
    ) -> (edge: Edge)
        ensures
            edge@ == added_edge(
                peer0@,
                peer1@,
                nonce,
                signed_by(secret_key@, signing_hash(peer0@, peer1@, nonce)),
                signature1@,
            ),
    {
        let hash = Self::signing_hash(&peer0, &peer1, nonce);
        let signature0 = secret_key.sign(hash.as_bytes());
        Self::new(peer0, peer1, nonce, signature0, signature1)
    }

    /// An edge between `peer0` and `peer1`, in the order given, with empty
    /// signatures.
    pub fn make_fake_edge(peer0: PeerId, peer1: PeerId, nonce: u64) -> (edge: Edge)
        ensures
            edge@.key == (peer0@, peer1@),
            edge@.nonce == nonce,
            edge@.removal_info is None,
            edge@.signature0.len() == 65,
            edge@.signature1 == edge@.signature0,
            forall|i: int| 0 <= i < 65 ==> edge@.signature0[i] == 0,
    {
        let signature0 = Signature::empty(KeyType::ED25519);
        let signature1 = Signature::empty(KeyType::ED25519);
        assert(signature0@ =~= signature1@);
        Edge(
            Arc::new(
                EdgeInner { key: (peer0, peer1), nonce, signature0, signature1, removal_info: None },
            ),
        )
    }

    /// The edge itself.
    pub fn inner(&self) -> (inner: &EdgeInner)
        ensures
            inner@ == self@,
    {
        &*self.0
    }

    /// The hash that the parties sign for the peers `peer0` and `peer1`, in
    /// this order, and `nonce`.
    pub fn build_hash(peer0: &PeerId, peer1: &PeerId, nonce: u64) -> (hash: CryptoHash)
        ensures
            hash@ == edge_hash(peer0@, peer1@, nonce),
    {
        EdgeInner::build_hash(peer0, peer1, nonce)
    }

    /// The hash that a party signs to propose the link between the two
    /// peers: `build_hash` of the peers in their order.
    pub fn signing_hash(peer0: &PeerId, peer1: &PeerId, nonce: u64) -> (hash: CryptoHash)
        ensures
            hash@ == signing_hash(peer0@, peer1@, nonce),
    {
        if peer0.lt(peer1) {
            Self::build_hash(peer0, peer1, nonce)
        } else {
            Self::build_hash(peer1, peer0, nonce)
        }
    }

    /// The two peers in their order: the smaller one first.
    pub fn make_key(peer0: PeerId, peer1: PeerId) -> (key: (PeerId, PeerId))
        ensures
            (key.0@, key.1@) == key_of(peer0@, peer1@),
    {
        if peer0.lt(&peer1) {
            (peer0, peer1)
        } else {
            (peer1, peer0)
        }
    }

    /// Whether the half edge that `peer1` sent is signed by `peer1`: whether
    /// its signature is that of the hash for the two peers and its nonce.
    pub fn partial_verify(peer0: PeerId, peer1: PeerId, edge_info: &EdgeInfo) -> (valid: bool)
        ensures
            valid == signature_valid(
                edge_info.signature@,
                signing_hash(peer0@, peer1@, edge_info.nonce),
                peer1@,
            ),
    {
        let data = Self::signing_hash(&peer0, &peer1, edge_info.nonce);
        edge_info.signature.verify(data.as_bytes(), peer1.public_key())
    }

    /// The nonce of the next edge that adds: the least odd number above
    /// `nonce`.
    pub fn next_nonce(nonce: u64) -> (next: u64)
        requires
            next_nonce_of(nonce) <= u64::MAX,
        ensures
            next == next_nonce_of(nonce),
            next % 2 == 1,
            next > nonce,
    {
        if nonce % 2 == 1 {
            nonce + 2
        } else {
            nonce + 1
        }
    }
}

/// An edge without its signatures: the two peers in their order and the
/// nonce.
#[derive(Debug, PartialEq, Eq, Hash)]
pub struct SimpleEdge {
    key: (PeerId, PeerId),
    nonce: u64,
}

impl Clone for SimpleEdge {
    fn clone(&self) -> (copy: Self)
        ensures
            copy.key_view() == self.key_view(),
            copy.nonce_view() == self.nonce_view(),
    {
        SimpleEdge { key: (self.key.0.dup(), self.key.1.dup()), nonce: self.nonce }
    }
}

impl SimpleEdge {
    /// The two peers, by the serialized forms of their keys.
    pub closed spec fn key_view(&self) -> (Seq<u8>, Seq<u8>) {
        (self.key.0@, self.key.1@)
    }

    /// The nonce.
    pub closed spec fn nonce_view(&self) -> u64 {
        self.nonce
    }

    /// The edge between `peer0` and `peer1` with the given nonce, the peers
    /// put in their order.
    pub fn new(peer0: PeerId, peer1: PeerId, nonce: u64) -> (edge: SimpleEdge)
        ensures
            edge.key_view() == key_of(peer0@, peer1@),
            edge.nonce_view() == nonce,
    {
        let key = Edge::make_key(peer0, peer1);
        SimpleEdge { key, nonce }
    }

    /// The two peers of the edge.
    pub fn key(&self) -> (key: &(PeerId, PeerId))
        ensures
            (key.0@, key.1@) == self.key_view(),
    {
        &self.key
    }

    /// The nonce of the edge.
    pub fn nonce(&self) -> (nonce: u64)
        ensures
            nonce == self.nonce_view(),
    {
        self.nonce
    }

    /// Whether the edge adds or removes: it adds exactly when its nonce is
    /// odd.
    pub fn edge_type(&self) -> (edge_type: EdgeType)
        ensures
            edge_type == edge_type_of(self.nonce_view()),
            (edge_type == EdgeType::Added) == (self.nonce_view() % 2 == 1),
    {
        if self.nonce % 2 == 1 {
            EdgeType::Added
        } else {
            EdgeType::Removed
        }
    }
}

} // verus!
