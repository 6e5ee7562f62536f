//! The serialized form of an edge: the two keys, the nonce, the two
//! signatures and the removal, one after the other.

use std::sync::Arc;
use vstd::prelude::*;
use crate::bytes::{
    bytes_append, bytes_slice, le_bytes, le_value, lemma_le_round_trip, lex_lt, push_le_bytes,
    read_le_bytes,
};
use crate::edge::{Edge, EdgeInner, EdgeView};
use crate::keys::{is_public_key, is_signature, PeerId, PublicKey, Signature};

verus! {

/// The serialized form of a removal: the byte 0 where there is none, else the
/// byte 1, a byte for the flag and the signature.
pub open spec fn removal_bytes(removal: Option<(bool, Seq<u8>)>) -> Seq<u8> {
    match removal {
        None => seq![0u8],
        Some((party, signature)) => seq![1u8, if party { 1u8 } else { 0u8 }] + signature,
    }
}

/// The serialized form of an edge.
pub open spec fn edge_bytes(edge: EdgeView) -> Seq<u8> {
    edge.key.0 + edge.key.1 + le_bytes(edge.nonce) + edge.signature0 + edge.signature1
        + removal_bytes(edge.removal_info)
}

/// Whether the parts of an edge are keys and signatures, and its peers in
/// their order.
pub open spec fn edge_well_formed(edge: EdgeView) -> bool {
    &&& is_public_key(edge.key.0)
    &&& is_public_key(edge.key.1)
    &&& lex_lt(edge.key.0, edge.key.1)
    &&& is_signature(edge.signature0)
    &&& is_signature(edge.signature1)
    &&& edge.removal_info matches Some((_, signature)) ==> is_signature(signature)
}

/// The length of the key that begins at `at`, or 0 where none does.
pub open spec fn key_len_at(bytes: Seq<u8>, at: int) -> int {
    if 0 <= at < bytes.len() && bytes[at] == 0 && at + 33 <= bytes.len() {
        33
    } else if 0 <= at < bytes.len() && bytes[at] == 1 && at + 65 <= bytes.len() {
        65
    } else {
        0
    }
}

/// The length of the signature that begins at `at`, or 0 where none does.
pub open spec fn signature_len_at(bytes: Seq<u8>, at: int) -> int {
    if 0 <= at < bytes.len() && bytes[at] == 0 && at + 65 <= bytes.len() && bytes[at + 64] & 0xe0
        == 0 {
        65
    } else if 0 <= at < bytes.len() && bytes[at] == 1 && at + 66 <= bytes.len() {
        66
    } else {
        0
    }
}

/// The removal that `bytes` spell from `at` to their end, if they spell one.
pub open spec fn removal_at(bytes: Seq<u8>, at: int) -> Option<Option<(bool, Seq<u8>)>> {
    if !(0 <= at < bytes.len()) {
        None
    } else if bytes[at] == 0 {
        if at + 1 == bytes.len() {
            Some(None)
        } else {
            None
        }
    } else if bytes[at] == 1 && at + 2 <= bytes.len() && bytes[at + 1] <= 1 {
        let n = signature_len_at(bytes, at + 2);
        if n != 0 && at + 2 + n == bytes.len() {
            Some(Some((bytes[at + 1] == 1, bytes.subrange(at + 2, at + 2 + n))))
        } else {
            None
        }
    } else {
        None
    }
}

/// The edge that `bytes` spell, if they spell one: two keys in their order,
/// eight bytes of nonce, two signatures and a removal, and nothing after.
pub open spec fn parsed_edge(bytes: Seq<u8>) -> Option<EdgeView> {
    let a1 = key_len_at(bytes, 0);
    let a2 = a1 + key_len_at(bytes, a1);
    let a3 = a2 + 8;
    let a4 = a3 + signature_len_at(bytes, a3);
    let a5 = a4 + signature_len_at(bytes, a4);
    if a1 == 0 || a2 == a1 || a3 > bytes.len() || a4 == a3 || a5 == a4 {
        None
    } else if !lex_lt(bytes.subrange(0, a1), bytes.subrange(a1, a2)) {
        None
    } else {
        match removal_at(bytes, a5) {
            None => None,
            Some(removal_info) => Some(
                EdgeView {
                    key: (bytes.subrange(0, a1), bytes.subrange(a1, a2)),
                    nonce: le_value(bytes.subrange(a2, a3)),
                    signature0: bytes.subrange(a3, a4),
                    signature1: bytes.subrange(a4, a5),
                    removal_info,
                },
            ),
        }
    }
}

/// Reading the serialized form of a well-formed edge gives the edge back.
pub proof fn lemma_edge_round_trip(edge: EdgeView)
    requires
        edge_well_formed(edge),
    ensures
        parsed_edge(edge_bytes(edge)) == Some(edge),
{
    let bytes = edge_bytes(edge);
    let key0 = edge.key.0;
    let key1 = edge.key.1;
    let nn = le_bytes(edge.nonce);
    let sig0 = edge.signature0;
    let sig1 = edge.signature1;
    let rb = removal_bytes(edge.removal_info);
    lemma_le_round_trip(edge.nonce);
    let a1 = key0.len() as int;
    let a2 = a1 + key1.len();
    let a3 = a2 + 8;
    let a4 = a3 + sig0.len();
    let a5 = a4 + sig1.len();
    assert(bytes.len() == a5 + rb.len());
    assert(rb.len() >= 1);
    assert(bytes.subrange(0, a1) =~= key0);
    assert(bytes.subrange(a1, a2) =~= key1);
    assert(bytes.subrange(a2, a3) =~= nn);
    assert(bytes.subrange(a3, a4) =~= sig0);
    assert(bytes.subrange(a4, a5) =~= sig1);
    assert(bytes[0] == key0[0]);
    assert(bytes[a1] == key1[0]);
    assert(bytes[a3] == sig0[0]);
    assert(bytes[a4] == sig1[0]);
    assert(bytes[a3 + 64] == sig0[64]);
    assert(bytes[a4 + 64] == sig1[64]);
    assert(key_len_at(bytes, 0) == a1);
    assert(key_len_at(bytes, a1) == key1.len());
    assert(signature_len_at(bytes, a3) == sig0.len());
    assert(signature_len_at(bytes, a4) == sig1.len());
    assert(bytes[a5] == rb[0]);
    match edge.removal_info {
        None => {
            assert(removal_at(bytes, a5) == Some(edge.removal_info));
        },
        Some((party, signature)) => {
            assert(rb.len() == 2 + signature.len());
            assert(bytes[a5 + 1] == rb[1]);
            assert(bytes[a5 + 2] == signature[0]);
            assert(bytes[a5 + 2 + 64] == signature[64]);
            assert(signature_len_at(bytes, a5 + 2) == signature.len());
            assert(bytes.subrange(a5 + 2, a5 + 2 + signature.len()) =~= signature);
            assert(removal_at(bytes, a5) == Some(edge.removal_info));
        },
    }
}

/// Bytes that spell an edge are the serialized form of that edge, and the
/// edge is well formed.
pub proof fn lemma_parsed_edge_bytes(bytes: Seq<u8>)
    requires
        parsed_edge(bytes) is Some,
    ensures
        edge_bytes(parsed_edge(bytes).unwrap()) == bytes,
        edge_well_formed(parsed_edge(bytes).unwrap()),
{
    let edge = parsed_edge(bytes).unwrap();
    let a1 = key_len_at(bytes, 0);
    let a2 = a1 + key_len_at(bytes, a1);
    let a3 = a2 + 8;
    let a4 = a3 + signature_len_at(bytes, a3);
    let a5 = a4 + signature_len_at(bytes, a4);
    lemma_le_value_bytes(bytes.subrange(a2, a3));
    assert(bytes.subrange(0, a1)[0] == bytes[0]);
    assert(bytes.subrange(a1, a2)[0] == bytes[a1]);
    assert(bytes.subrange(a3, a4)[0] == bytes[a3]);
    assert(bytes.subrange(a3, a4)[64] == bytes[a3 + 64]);
    assert(bytes.subrange(a4, a5)[0] == bytes[a4]);
    assert(bytes.subrange(a4, a5)[64] == bytes[a4 + 64]);
    match edge.removal_info {
        None => {
            assert(removal_bytes(edge.removal_info) =~= bytes.subrange(a5, bytes.len() as int));
        },
        Some((party, signature)) => {
            assert(signature[0] == bytes[a5 + 2]);
            assert(signature[64] == bytes[a5 + 2 + 64]);
            assert(removal_bytes(edge.removal_info) =~= bytes.subrange(a5, bytes.len() as int));
        },
    }
    assert(edge_bytes(edge) =~= bytes);
}

/// Eight bytes are the bytes of the number they spell.
pub proof fn lemma_le_value_bytes(bytes: Seq<u8>)
    requires
        bytes.len() == 8,
    ensures
        le_bytes(le_value(bytes)) == bytes,
{
    let b0 = bytes[0];
    let b1 = bytes[1];
    let b2 = bytes[2];
    let b3 = bytes[3];
    let b4 = bytes[4];
    let b5 = bytes[5];
    let b6 = bytes[6];
    let b7 = bytes[7];
    let v = le_value(bytes);
    assert(v == (b0 as u64) | ((b1 as u64) << 8) | ((b2 as u64) << 16) | ((b3 as u64) << 24) | ((
    b4 as u64) << 32) | ((b5 as u64) << 40) | ((b6 as u64) << 48) | ((b7 as u64) << 56));
    assert(v == (b0 as u64) | ((b1 as u64) << 8) | ((b2 as u64) << 16) | ((b3 as u64) << 24) | ((
    b4 as u64) << 32) | ((b5 as u64) << 40) | ((b6 as u64) << 48) | ((b7 as u64) << 56) ==> (((v
        >> 0u64) & 0xff) as u8 == b0 && ((v >> 8u64) & 0xff) as u8 == b1 && ((v >> 16u64) & 0xff) as u8
        == b2 && ((v >> 24u64) & 0xff) as u8 == b3 && ((v >> 32u64) & 0xff) as u8 == b4 && ((v
        >> 40u64) & 0xff) as u8 == b5 && ((v >> 48u64) & 0xff) as u8 == b6 && ((v >> 56u64) & 0xff) as u8
        == b7)) by (bit_vector);
    let out = le_bytes(v);
    assert(out[0] == (((v >> 0u64) & 0xff) as u8));
    assert(out[1] == (((v >> 8u64) & 0xff) as u8));
    assert(out[2] == (((v >> 16u64) & 0xff) as u8));
    assert(out[3] == (((v >> 24u64) & 0xff) as u8));
    assert(out[4] == (((v >> 32u64) & 0xff) as u8));
    assert(out[5] == (((v >> 40u64) & 0xff) as u8));
    assert(out[6] == (((v >> 48u64) & 0xff) as u8));
    assert(out[7] == (((v >> 56u64) & 0xff) as u8));
    assert(out =~= bytes);
}

/// The length of the key that begins at `at`, or 0 where none does.
fn key_length(bytes: &Vec<u8>, at: usize) -> (n: usize)
    ensures
        n == key_len_at(bytes@, at as int),
{
    if at < bytes.len() && bytes[at] == 0 && bytes.len() - at >= 33 {
        33
    } else if at < bytes.len() && bytes[at] == 1 && bytes.len() - at >= 65 {
        65
    } else {
        0
    }
}

/// The length of the signature that begins at `at`, or 0 where none does.
fn signature_length(bytes: &Vec<u8>, at: usize) -> (n: usize)
    ensures
        n == signature_len_at(bytes@, at as int),
{
    if at < bytes.len() && bytes[at] == 0 && bytes.len() - at >= 65 && bytes[at + 64] & 0xe0 == 0 {
        65
    } else if at < bytes.len() && bytes[at] == 1 && bytes.len() - at >= 66 {
        66
    } else {
        0
    }
}

/// The peer whose key is the bytes from `from` up to `to`.
fn peer_from(bytes: &Vec<u8>, from: usize, to: usize) -> (peer: PeerId)
    requires
        from <= to <= bytes@.len(),
        to - from == key_len_at(bytes@, from as int),
        to > from,
    ensures
        peer@ == bytes@.subrange(from as int, to as int),
{
    let part = bytes_slice(bytes, from, to);
    assert(part@[0] == bytes@[from as int]);
    let key = PublicKey::from_bytes(part);
    PeerId::new(key.unwrap())
}

/// The signature whose bytes are those from `from` up to `to`.
fn signature_from(bytes: &Vec<u8>, from: usize, to: usize) -> (signature: Signature)
    requires
        from <= to <= bytes@.len(),
        to - from == signature_len_at(bytes@, from as int),
        to > from,
    ensures
        signature@ == bytes@.subrange(from as int, to as int),
{
    let part = bytes_slice(bytes, from, to);
    assert(part@[0] == bytes@[from as int]);
    assert(part@[64] == bytes@[from + 64]);
    Signature::from_bytes(part).unwrap()
}

impl EdgeInner {
    /// The serialized form of the edge. Where the peers of the edge are in
    /// their order, the bytes spell the edge again.
    pub fn to_bytes(&self) -> (bytes: Vec<u8>)
        ensures
            bytes@ == edge_bytes(self@),
            lex_lt(self@.key.0, self@.key.1) ==> parsed_edge(bytes@) == Some(self@),
    {
        let mut out: Vec<u8> = Vec::new();
        bytes_append(&mut out, self.key.0.as_bytes());
        bytes_append(&mut out, self.key.1.as_bytes());
        push_le_bytes(&mut out, self.nonce);
        bytes_append(&mut out, self.signature0.as_bytes());
        bytes_append(&mut out, self.signature1.as_bytes());
        let ghost head = out@;
        match &self.removal_info {
            None => {
                out.push(0);
                assert(out@ =~= head + removal_bytes(self@.removal_info));
            },
            Some((party, signature)) => {
                out.push(1);
                out.push(if *party { 1 } else { 0 });
                bytes_append(&mut out, signature.as_bytes());
                assert(out@ =~= head + removal_bytes(self@.removal_info));
            },
        }
        assert(out@ =~= edge_bytes(self@));
        proof {
            if lex_lt(self@.key.0, self@.key.1) {
                lemma_edge_round_trip(self@);
            }
        }
        out
    }

    /// The edge that `bytes` spell, if they spell one.
    pub fn from_bytes(bytes: &Vec<u8>) -> (edge: Option<EdgeInner>)
        ensures
            edge matches Some(e) ==> parsed_edge(bytes@) == Some(e@),
            edge is None ==> parsed_edge(bytes@) is None,
    {
        let len = bytes.len();
        let n0 = key_length(bytes, 0);
        if n0 == 0 {
            return None;
        }
        let a1 = n0;
        let n1 = key_length(bytes, a1);
        if n1 == 0 {
            return None;
        }
        let a2 = a1 + n1;
        if len - a2 < 8 {
            return None;
        }
        let a3 = a2 + 8;
        let n2 = signature_length(bytes, a3);
        if n2 == 0 {
            return None;
        }
        let a4 = a3 + n2;
        let n3 = signature_length(bytes, a4);
        if n3 == 0 {
            return None;
        }
        let a5 = a4 + n3;
        let peer0 = peer_from(bytes, 0, a1);
        let peer1 = peer_from(bytes, a1, a2);
        if !peer0.lt(&peer1) {
            return None;
        }
        let nonce = read_le_bytes(bytes, a2);
        let signature0 = signature_from(bytes, a3, a4);
        let signature1 = signature_from(bytes, a4, a5);
        if a5 >= len {
            return None;
        }
        let removal_info = if bytes[a5] == 0 {
            if a5 + 1 != len {
                return None;
            }
            None
        } else if bytes[a5] == 1 && len - a5 >= 2 && bytes[a5 + 1] <= 1 {
            let n4 = signature_length(bytes, a5 + 2);
            if n4 == 0 || len - (a5 + 2) != n4 {
                return None;
            }
            Some((bytes[a5 + 1] == 1, signature_from(bytes, a5 + 2, a5 + 2 + n4)))
        } else {
            return None;
        };
        Some(EdgeInner { key: (peer0, peer1), nonce, signature0, signature1, removal_info })
    }
}

impl Edge {
    /// The serialized form of the edge. Where the peers of the edge are in
    /// their order, the bytes spell the edge again.
    pub fn to_bytes(&self) -> (bytes: Vec<u8>)
        ensures
            bytes@ == edge_bytes(self@),
            lex_lt(self@.key.0, self@.key.1) ==> parsed_edge(bytes@) == Some(self@),
    {
        self.inner().to_bytes()
    }

    /// The edge that `bytes` spell, if they spell one.
    pub fn from_bytes(bytes: &Vec<u8>) -> (edge: Option<Edge>)
        ensures
            edge matches Some(e) ==> parsed_edge(bytes@) == Some(e@),
            edge is None ==> parsed_edge(bytes@) is None,
    {
        match EdgeInner::from_bytes(bytes) {
            Some(inner) => Some(Edge(Arc::new(inner))),
            None => None,
        }
    }
}

} // verus!
