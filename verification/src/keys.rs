//! Public keys, signatures, hashes and peer identities, each held as the
//! bytes of its serialized form.

use vstd::prelude::*;
use crate::bytes::{bytes_copy, bytes_eq, bytes_lt, bytes_slice, lex_lt};
use crate::crypto::{
    ed25519_accepts, ed25519_key_check, ed25519_key_sound, ed25519_verify, public_key_of_secret,
    secp256k1_accepts, secp256k1_recover, secp256k1_recovered, secp256k1_recovers,
    secp256k1_verify, secret_public_key, sha256, sha256_digest, sign_with, signed_by,
    MAX_RECOVERY_ID,
};

verus! {

/// The curve of a key or of a signature.
#[derive(Clone, Copy, Debug, PartialEq, Eq, Structural)]
pub enum KeyType {
    ED25519,
    SECP256K1,
}

/// Length of a hash in bytes.
pub const HASH_LENGTH: usize = 32;

/// Whether `bytes` is the serialized form of a public key: the byte 0 and 32
/// bytes of an Ed25519 key, or the byte 1 and 64 bytes of a secp256k1 key.
pub open spec fn is_public_key(bytes: Seq<u8>) -> bool {
    ||| bytes.len() == 33 && bytes[0] == 0
    ||| bytes.len() == 65 && bytes[0] == 1
}

/// Whether `bytes` is the serialized form of a signature: the byte 0 and 64
/// bytes of an Ed25519 signature, of which the last has its three highest
/// bits clear, or the byte 1 and 65 bytes of a secp256k1 signature.
pub open spec fn is_signature(bytes: Seq<u8>) -> bool {
    ||| bytes.len() == 65 && bytes[0] == 0 && bytes[64] & 0xe0 == 0
    ||| bytes.len() == 66 && bytes[0] == 1
}

/// Whether the 65 bytes `signature` are a valid secp256k1 signature of `data`
/// under the 64-byte key `public_key`: the data are 32 bytes, the last byte
/// of the signature names a way of recovery, the key can be recovered from
/// the signature and the data, and the signature is accepted under the key.
/// The recovery comes first because the check cannot be asked about
/// numbers that are no signature or bytes that are no point of the curve: a
/// signature that a recovery has read is one, and a key that it gives is a
/// point. Of a signature that was made with the secret key of
/// `public_key`, one way of recovery gives that key.
pub open spec fn secp256k1_valid(signature: Seq<u8>, data: Seq<u8>, public_key: Seq<u8>) -> bool {
    &&& signature.len() == 65
    &&& public_key.len() == 64
    &&& data.len() == 32
    &&& signature[64] <= MAX_RECOVERY_ID
    &&& secp256k1_recovers(signature, data, public_key)
    &&& secp256k1_accepts(signature, data, public_key)
}

/// Whether the signature `signature` of `data` holds under `public_key`, all
/// three in serialized form. A key of one curve never validates a signature
/// of the other.
pub open spec fn signature_valid(signature: Seq<u8>, data: Seq<u8>, public_key: Seq<u8>) -> bool {
    &&& signature.len() > 0
    &&& public_key.len() > 0
    &&& signature[0] == public_key[0]
    &&& if signature[0] == 0 {
        ed25519_accepts(signature.skip(1), data, public_key.skip(1))
    } else {
        secp256k1_valid(signature.skip(1), data, public_key.skip(1))
    }
}

/// A public key.
#[derive(Debug, PartialEq, Eq, PartialOrd, Ord, Hash)]
pub struct PublicKey {
    bytes: Vec<u8>,
}

impl View for PublicKey {
    type V = Seq<u8>;

    /// The serialized form of the key.
    closed spec fn view(&self) -> Seq<u8> {
        self.bytes@
    }
}

impl Clone for PublicKey {
    fn clone(&self) -> (copy: Self)
        ensures
            copy@ == self@,
            copy.wf(),
    {
        self.dup()
    }
}

impl PublicKey {
    /// Every key holds a serialized public key.
    #[verifier::type_invariant]
    pub closed spec fn wf(self) -> bool {
        is_public_key(self.bytes@)
    }

    /// The key with the given serialized form, if it is one.
    pub fn from_bytes(bytes: Vec<u8>) -> (key: Option<PublicKey>)
        ensures
            key.is_some() == is_public_key(bytes@),
            key matches Some(k) ==> k@ == bytes@ && k.wf(),
    {
        let n = bytes.len();
        if (n == 33 && bytes[0] == 0) || (n == 65 && bytes[0] == 1) {
            Some(PublicKey { bytes })
        } else {
            None
        }
    }

    /// The key of the given curve whose bytes are all zero.
    pub fn empty(key_type: KeyType) -> (key: PublicKey)
        ensures
            key.wf(),
            key@.len() == (if key_type == KeyType::ED25519 { 33int } else { 65int }),
            key@[0] == (if key_type == KeyType::ED25519 { 0u8 } else { 1u8 }),
            forall|i: int| 1 <= i < key@.len() ==> key@[i] == 0,
    {
        let (tag, len): (u8, usize) = match key_type {
            KeyType::ED25519 => (0, 33),
            KeyType::SECP256K1 => (1, 65),
        };
        let mut bytes: Vec<u8> = Vec::with_capacity(len);
        bytes.push(tag);
        while bytes.len() < len
            invariant
                1 <= bytes.len() <= len,
                bytes@[0] == tag,
                forall|i: int| 1 <= i < bytes.len() ==> bytes@[i] == 0,
            decreases len - bytes.len(),
        {
            bytes.push(0);
        }
        PublicKey { bytes }
    }

    /// The serialized form of the key.
    pub fn as_bytes(&self) -> (bytes: &Vec<u8>)
        ensures
            bytes@ == self@,
            is_public_key(bytes@),
    {
        proof {
            use_type_invariant(self);
        }
        &self.bytes
    }

    /// The curve of the key.
    pub fn key_type(&self) -> (key_type: KeyType)
        ensures
            key_type == (if self@[0] == 0 { KeyType::ED25519 } else { KeyType::SECP256K1 }),
    {
        proof {
            use_type_invariant(self);
        }
        if self.bytes[0] == 0 {
            KeyType::ED25519
        } else {
            KeyType::SECP256K1
        }
    }

    /// The bytes of the key without the byte that names the curve.
    pub fn key_data(&self) -> (data: Vec<u8>)
        ensures
            data@ == self@.skip(1),
    {
        proof {
            use_type_invariant(self);
        }
        let data = bytes_slice(&self.bytes, 1, self.bytes.len());
        assert(data@ =~= self@.skip(1));
        data
    }

    /// A copy of the key.
    pub fn dup(&self) -> (copy: PublicKey)
        ensures
            copy@ == self@,
            copy.wf(),
    {
        proof {
            use_type_invariant(self);
        }
        PublicKey { bytes: bytes_copy(&self.bytes) }
    }
}

/// A signature.
#[derive(Debug, PartialEq, Eq, Hash)]
pub struct Signature {
    bytes: Vec<u8>,
}

impl View for Signature {
    type V = Seq<u8>;

    /// The serialized form of the signature.
    closed spec fn view(&self) -> Seq<u8> {
        self.bytes@
    }
}

impl Clone for Signature {
    fn clone(&self) -> (copy: Self)
        ensures
            copy@ == self@,
            copy.wf(),
    {
        self.dup()
    }
}

impl Signature {
    /// Every signature holds a serialized signature.
    #[verifier::type_invariant]
    pub closed spec fn wf(self) -> bool {
        is_signature(self.bytes@)
    }

    /// The signature with the given serialized form, if it is one.
    pub fn from_bytes(bytes: Vec<u8>) -> (signature: Option<Signature>)
        ensures
            signature.is_some() == is_signature(bytes@),
            signature matches Some(s) ==> s@ == bytes@ && s.wf(),
    {
        let n = bytes.len();
        if (n == 65 && bytes[0] == 0 && bytes[64] & 0xe0 == 0) || (n == 66 && bytes[0] == 1) {
            Some(Signature { bytes })
        } else {
            None
        }
    }

    /// The signature of the given curve whose bytes are all zero.
    pub fn empty(key_type: KeyType) -> (signature: Signature)
        ensures
            signature.wf(),
            signature@.len() == (if key_type == KeyType::ED25519 { 65int } else { 66int }),
            signature@[0] == (if key_type == KeyType::ED25519 { 0u8 } else { 1u8 }),
            forall|i: int| 1 <= i < signature@.len() ==> signature@[i] == 0,
    {
        let (tag, len): (u8, usize) = match key_type {
            KeyType::ED25519 => (0, 65),
            KeyType::SECP256K1 => (1, 66),
        };
        let mut bytes: Vec<u8> = Vec::with_capacity(len);
        bytes.push(tag);
        while bytes.len() < len
            invariant
                1 <= bytes.len() <= len,
                bytes@[0] == tag,
                forall|i: int| 1 <= i < bytes.len() ==> bytes@[i] == 0,
            decreases len - bytes.len(),
        {
            bytes.push(0);
        }
        assert(0u8 & 0xe0 == 0) by (bit_vector);
        Signature { bytes }
    }

    /// The serialized form of the signature.
    pub fn as_bytes(&self) -> (bytes: &Vec<u8>)
        ensures
            bytes@ == self@,
            is_signature(bytes@),
    {
        proof {
            use_type_invariant(self);
        }
        &self.bytes
    }

    /// The curve of the signature.
    pub fn key_type(&self) -> (key_type: KeyType)
        ensures
            key_type == (if self@[0] == 0 { KeyType::ED25519 } else { KeyType::SECP256K1 }),
    {
        proof {
            use_type_invariant(self);
        }
        if self.bytes[0] == 0 {
            KeyType::ED25519
        } else {
            KeyType::SECP256K1
        }
    }

    /// Whether this is a signature of `data` under `public_key`.
    pub fn verify(&self, data: &Vec<u8>, public_key: &PublicKey) -> (ok: bool)
        ensures
            ok == signature_valid(self@, data@, public_key@),
    {
        proof {
            use_type_invariant(self);
            use_type_invariant(public_key);
        }
        if self.bytes[0] != public_key.bytes[0] {
            return false;
        }
        let raw = bytes_slice(&self.bytes, 1, self.bytes.len());
        let key = bytes_slice(&public_key.bytes, 1, public_key.bytes.len());
        assert(raw@ =~= self@.skip(1));
        assert(key@ =~= public_key@.skip(1));
        if self.bytes[0] == 0 {
            ed25519_verify(&raw, data, &key)
        } else {
            Self::verify_secp256k1(&raw, data, &key)
        }
    }

    /// Whether the 65 bytes `signature` are a valid secp256k1 signature of
    /// `data` under the 64-byte key `public_key`.
    fn verify_secp256k1(signature: &Vec<u8>, data: &Vec<u8>, public_key: &Vec<u8>) -> (ok: bool)
        requires
            signature@.len() == 65,
            public_key@.len() == 64,
        ensures
            ok == secp256k1_valid(signature@, data@, public_key@),
    {
        if data.len() != 32 || signature[64] > MAX_RECOVERY_ID {
            return false;
        }
        let mut way: u8 = 0;
        while way <= MAX_RECOVERY_ID
            invariant
                way <= MAX_RECOVERY_ID + 1,
                signature@.len() == 65,
                public_key@.len() == 64,
                data@.len() == 32,
                signature@[64] <= MAX_RECOVERY_ID,
                forall|tried: u8|
                    tried < way ==> #[trigger] secp256k1_recovered(
                        signature@.take(64).push(tried),
                        data@,
                    ) != Some(public_key@),
            decreases MAX_RECOVERY_ID + 1 - way,
        {
            let mut candidate = bytes_slice(signature, 0, 64);
            candidate.push(way);
            assert(candidate@ =~= signature@.take(64).push(way));
            let recovered = secp256k1_recover(&candidate, data);
            let found = match &recovered {
                Some(key) => bytes_eq(key, public_key),
                None => false,
            };
            if found {
                return secp256k1_verify(signature, data, public_key);
            }
            way += 1;
        }
        false
    }

    /// A copy of the signature.
    pub fn dup(&self) -> (copy: Signature)
        ensures
            copy@ == self@,
            copy.wf(),
    {
        proof {
            use_type_invariant(self);
        }
        Signature { bytes: bytes_copy(&self.bytes) }
    }

    /// Whether two signatures hold the same bytes.
    pub fn same(&self, other: &Signature) -> (same: bool)
        ensures
            same == (self@ == other@),
    {
        bytes_eq(&self.bytes, &other.bytes)
    }
}

/// A hash of 32 bytes.
#[derive(Debug, PartialEq, Eq, PartialOrd, Ord, Hash)]
pub struct CryptoHash {
    bytes: Vec<u8>,
}

impl View for CryptoHash {
    type V = Seq<u8>;

    /// The 32 bytes of the hash.
    closed spec fn view(&self) -> Seq<u8> {
        self.bytes@
    }
}

impl Clone for CryptoHash {
    fn clone(&self) -> (copy: Self)
        ensures
            copy@ == self@,
            copy.wf(),
    {
        self.dup()
    }
}

impl CryptoHash {
    /// Every hash holds 32 bytes.
    #[verifier::type_invariant]
    pub closed spec fn wf(self) -> bool {
        self.bytes@.len() == HASH_LENGTH
    }

    /// The hash whose bytes are all zero.
    pub fn new() -> (hash: CryptoHash)
        ensures
            hash.wf(),
            hash@ == Seq::new(32, |i: int| 0u8),
    {
        let mut bytes: Vec<u8> = Vec::with_capacity(HASH_LENGTH);
        while bytes.len() < HASH_LENGTH
            invariant
                bytes.len() <= HASH_LENGTH,
                forall|i: int| 0 <= i < bytes.len() ==> bytes@[i] == 0,
            decreases HASH_LENGTH - bytes.len(),
        {
            bytes.push(0);
        }
        assert(bytes@ =~= Seq::new(32, |i: int| 0u8));
        CryptoHash { bytes }
    }

    /// The hash that holds the given bytes, if they are 32.
    pub fn from_bytes(bytes: Vec<u8>) -> (hash: Option<CryptoHash>)
        ensures
            hash.is_some() == (bytes@.len() == HASH_LENGTH),
            hash matches Some(h) ==> h@ == bytes@ && h.wf(),
    {
        if bytes.len() == HASH_LENGTH {
            Some(CryptoHash { bytes })
        } else {
            None
        }
    }

    /// The SHA-256 digest of `data`.
    pub fn hash_bytes(data: &Vec<u8>) -> (hash: CryptoHash)
        ensures
            hash.wf(),
            hash@ == sha256_digest(data@),
    {
        CryptoHash { bytes: sha256(data) }
    }

    /// The bytes of the hash.
    pub fn as_bytes(&self) -> (bytes: &Vec<u8>)
        ensures
            bytes@ == self@,
            bytes@.len() == HASH_LENGTH,
    {
        proof {
            use_type_invariant(self);
        }
        &self.bytes
    }

    /// A copy of the hash.
    pub fn dup(&self) -> (copy: CryptoHash)
        ensures
            copy@ == self@,
            copy.wf(),
    {
        proof {
            use_type_invariant(self);
        }
        CryptoHash { bytes: bytes_copy(&self.bytes) }
    }

    /// Whether two hashes hold the same bytes.
    pub fn same(&self, other: &CryptoHash) -> (same: bool)
        ensures
            same == (self@ == other@),
    {
        bytes_eq(&self.bytes, &other.bytes)
    }
}

/// The identity of a peer: its public key. Peers are ordered bytewise by the
/// serialized form of their keys.
#[derive(Debug, PartialEq, Eq, PartialOrd, Ord, Hash)]
pub struct PeerId {
    key: PublicKey,
}

impl View for PeerId {
    type V = Seq<u8>;

    /// The serialized form of the peer's public key.
    closed spec fn view(&self) -> Seq<u8> {
        self.key@
    }
}

impl Clone for PeerId {
    fn clone(&self) -> (copy: Self)
        ensures
            copy@ == self@,
            copy.wf(),
    {
        self.dup()
    }
}

impl PeerId {
    /// The key of every peer is a public key.
    #[verifier::type_invariant]
    pub closed spec fn wf(self) -> bool {
        self.key.wf()
    }

    /// The peer with the given public key.
    pub fn new(key: PublicKey) -> (peer: PeerId)
        ensures
            peer@ == key@,
            peer.wf(),
    {
        proof {
            use_type_invariant(&key);
        }
        PeerId { key }
    }

    /// The public key of the peer.
    pub fn public_key(&self) -> (key: &PublicKey)
        ensures
            key@ == self@,
    {
        &self.key
    }

    /// Whether this peer comes before `other`.
    pub fn lt(&self, other: &PeerId) -> (before: bool)
        ensures
            before == lex_lt(self@, other@),
    {
        bytes_lt(&self.key.bytes, &other.key.bytes)
    }

    /// Whether this peer is `other`.
    pub fn same(&self, other: &PeerId) -> (same: bool)
        ensures
            same == (self@ == other@),
    {
        bytes_eq(&self.key.bytes, &other.key.bytes)
    }

    /// A copy of the peer's identity.
    pub fn dup(&self) -> (copy: PeerId)
        ensures
            copy@ == self@,
            copy.wf(),
    {
        PeerId { key: self.key.dup() }
    }

    /// The serialized form of the peer's public key.
    pub fn as_bytes(&self) -> (bytes: &Vec<u8>)
        ensures
            bytes@ == self@,
            is_public_key(bytes@),
    {
        self.key.as_bytes()
    }
}

/// The peers of a list, each by the serialized form of its key.
pub open spec fn peer_views(peers: Seq<PeerId>) -> Seq<Seq<u8>> {
    Seq::new(peers.len(), |i: int| peers[i]@)
}


/// Whether `secret_key` writes out a secret key that this library signs
/// with: the text is a secret key, its public key is a public key in
/// serialized form, and the public half of an Ed25519 key is sound.
pub open spec fn is_secret_key(secret_key: Seq<char>) -> bool {
    match secret_public_key(secret_key) {
        Some(key) => is_public_key(key) && (key[0] == 0 ==> ed25519_key_sound(key.skip(1))),
        None => false,
    }
}

/// A secret key, held in its text form: the name of the curve, a colon, and
/// the key in base 58. Beside it stands the public key that belongs to it.
pub struct SecretKey {
    text: String,
    public_key: PublicKey,
}

impl View for SecretKey {
    type V = Seq<char>;

    closed spec fn view(&self) -> Seq<char> {
        self.text@
    }
}

impl SecretKey {
    #[verifier::type_invariant]
    spec fn wf(&self) -> bool {
        &&& is_secret_key(self.text@)
        &&& secret_public_key(self.text@) == Some(self.public_key@)
    }

    /// The public key of the secret key, in serialized form.
    pub closed spec fn public(&self) -> Seq<u8> {
        self.public_key@
    }

    /// The secret key that `text` writes out; none where it writes out no
    /// secret key that this library signs with.
    pub fn from_text(text: String) -> (key: Option<SecretKey>)
        ensures
            key is Some == is_secret_key(text@),
            match key {
                Some(found) => found@ == text@ && secret_public_key(text@) == Some(found.public()),
                None => true,
            },
    {
        match public_key_of_secret(&text) {
            Some(bytes) => match PublicKey::from_bytes(bytes) {
                Some(public_key) => {
                    proof {
                        use_type_invariant(&public_key);
                    }
                    let sound = if public_key.bytes[0] == 0 {
                        let raw = bytes_slice(&public_key.bytes, 1, public_key.bytes.len());
                        assert(raw@ =~= public_key@.skip(1));
                        ed25519_key_check(&raw)
                    } else {
                        true
                    };
                    if sound {
                        Some(SecretKey { text, public_key })
                    } else {
                        None
                    }
                },
                None => None,
            },
            None => None,
        }
    }

    /// The public key that belongs to the secret key.
    pub fn public_key(&self) -> (key: &PublicKey)
        ensures
            key@ == self.public(),
            secret_public_key(self@) == Some(key@),
    {
        proof {
            use_type_invariant(self);
        }
        &self.public_key
    }

    /// The curve of the key.
    pub fn key_type(&self) -> (key_type: KeyType)
        ensures
            key_type == (if self.public()[0] == 0 {
                KeyType::ED25519
            } else {
                KeyType::SECP256K1
            }),
    {
        self.public_key.key_type()
    }

    /// The signature of `data` with this key. A secp256k1 key signs digests
    /// of 32 bytes only.
    pub fn sign(&self, data: &Vec<u8>) -> (signature: Signature)
        requires
            self.public()[0] == 0 || data@.len() == 32,
        ensures
            signature@ == signed_by(self@, data@),
    {
        proof {
            use_type_invariant(self);
            use_type_invariant(&self.public_key);
        }
        let bytes = sign_with(&self.text, data);
        Signature { bytes }
    }
}

} // verus!
