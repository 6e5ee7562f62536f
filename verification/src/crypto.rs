//! The cryptographic primitives that the library takes from outside: the
//! SHA-256 digest, the checks of Ed25519 and secp256k1 signatures, and
//! signing. Nothing is proved of them here; the contracts below are
//! believed.

use vstd::prelude::*;
use crate::keys::is_signature;

verus! {

/// The SHA-256 digest of `data`: what `CryptoHash::hash_bytes` of
/// near-primitives returns for it.
pub uninterp spec fn sha256_digest(data: Seq<u8>) -> Seq<u8>;

/// Whether `Signature::verify` of near-crypto accepts the 64 bytes `signature`
/// as an Ed25519 signature of `data` under the 32-byte public key
/// `public_key`. Byte strings that are no signature or no key are not
/// accepted.
pub uninterp spec fn ed25519_accepts(signature: Seq<u8>, data: Seq<u8>, public_key: Seq<u8>) -> bool;

/// Calls `near_primitives::hash::CryptoHash::hash_bytes`. Believed: the result
/// is the digest of the bytes given, and, as the type `[u8; 32]` that the call
/// returns shows, 32 bytes long.
#[verifier::external_body]
pub(crate) fn sha256(data: &Vec<u8>) -> (digest: Vec<u8>)
    ensures
        digest@ == sha256_digest(data@),
        digest@.len() == 32,
{
    near_primitives::hash::CryptoHash::hash_bytes(data.as_slice()).0.to_vec()
}

/// Calls `near_crypto::Signature::verify` with an Ed25519 signature and an
/// Ed25519 public key, each made from its raw bytes by
/// `Signature::from_parts` and `ED25519PublicKey::try_from`. Believed: the
/// answer depends on the three byte strings alone. Where either conversion
/// fails the answer is `false`; on this curve the call does not panic.
#[verifier::external_body]
pub(crate) fn ed25519_verify(signature: &Vec<u8>, data: &Vec<u8>, public_key: &Vec<u8>) -> (ok: bool)
    ensures
        ok == ed25519_accepts(signature@, data@, public_key@),
{
    let parsed = near_crypto::Signature::from_parts(near_crypto::KeyType::ED25519, signature);
    let key = near_crypto::ED25519PublicKey::try_from(public_key.as_slice());
    match (parsed, key) {
        (Ok(s), Ok(k)) => s.verify(data, &near_crypto::PublicKey::ED25519(k)),
        _ => false,
    }
}

/// The public key that `Secp256K1Signature::recover` of near-crypto gives for
/// the 65 bytes `signature`, the last of which names the way of recovery, and
/// the 32 bytes `data`: the 64 bytes of the key, or none where there is no
/// key to recover.
pub uninterp spec fn secp256k1_recovered(signature: Seq<u8>, data: Seq<u8>) -> Option<Seq<u8>>;

/// Whether `Signature::verify` of near-crypto accepts the 65 bytes `signature`
/// as a secp256k1 signature of the 32 bytes `data` under the 64-byte public
/// key `public_key`.
pub uninterp spec fn secp256k1_accepts(signature: Seq<u8>, data: Seq<u8>, public_key: Seq<u8>) -> bool;

/// The most that the last byte of a secp256k1 signature can be: it names
/// one of four ways to recover the key.
pub const MAX_RECOVERY_ID: u8 = 3;

/// Whether the 64-byte secp256k1 key `public_key` is what some way of
/// recovery gives from the two numbers of `signature` and from `data`.
pub open spec fn secp256k1_recovers(signature: Seq<u8>, data: Seq<u8>, public_key: Seq<u8>) -> bool {
    exists|way: u8|
        way <= MAX_RECOVERY_ID && #[trigger] secp256k1_recovered(
            signature.take(64).push(way),
            data,
        ) == Some(public_key)
}

/// Calls `near_crypto::Secp256K1Signature::recover`, on a signature made by
/// `Secp256K1Signature::try_from`. Believed: the answer depends on the two
/// byte strings alone, and a key that comes back has 64 bytes. The call
/// panics where the last byte of the signature is above 3, which `requires`
/// leaves out; every other failure comes back as an error, which is none
/// here.
#[verifier::external_body]
pub(crate) fn secp256k1_recover(signature: &Vec<u8>, data: &Vec<u8>) -> (key: Option<Vec<u8>>)
    requires
        signature@.len() == 65,
        signature@[64] <= MAX_RECOVERY_ID,
        data@.len() == 32,
    ensures
        match key {
            Some(found) => secp256k1_recovered(signature@, data@) == Some(found@) && found@.len()
                == 64,
            None => secp256k1_recovered(signature@, data@) is None,
        },
{
    let parsed = near_crypto::Secp256K1Signature::try_from(signature.as_slice());
    let message: Result<[u8; 32], _> = data.as_slice().try_into();
    match (parsed, message) {
        (Ok(s), Ok(m)) => match s.recover(m) {
            Ok(k) => Some(k.as_ref().to_vec()),
            Err(_) => None,
        },
        _ => None,
    }
}

/// Calls `near_crypto::Signature::verify` with a secp256k1 signature and a
/// secp256k1 public key, each made from its raw bytes by
/// `Signature::from_parts` and `Secp256K1PublicKey::try_from`. Believed: the
/// answer depends on the three byte strings alone. The call panics where
/// the data are not 32 bytes, where the last byte of the signature is above
/// 3, where the two numbers of the signature do not parse, and where the
/// key is no point of the curve; `requires` leaves all of these out. The
/// last two it leaves out by asking that the key was recovered from the
/// first 64 bytes of the signature in some way of recovery: then the two
/// numbers have parsed, and the key is one that the curve library wrote
/// itself.
#[verifier::external_body]
pub(crate) fn secp256k1_verify(signature: &Vec<u8>, data: &Vec<u8>, public_key: &Vec<u8>) -> (ok:
    bool)
    requires
        signature@.len() == 65,
        signature@[64] <= MAX_RECOVERY_ID,
        data@.len() == 32,
        public_key@.len() == 64,
        secp256k1_recovers(signature@, data@, public_key@),
    ensures
        ok == secp256k1_accepts(signature@, data@, public_key@),
{
    let parsed = near_crypto::Signature::from_parts(near_crypto::KeyType::SECP256K1, signature);
    let key = near_crypto::Secp256K1PublicKey::try_from(public_key.as_slice());
    match (parsed, key) {
        (Ok(s), Ok(k)) => s.verify(data, &near_crypto::PublicKey::SECP256K1(k)),
        _ => false,
    }
}

/// The public key of the secret key that `secret_key` writes out, in
/// serialized form, as near-crypto reads the text with `SecretKey::from_str`
/// and gives the key with `SecretKey::public_key`; none where the text is no
/// secret key.
pub uninterp spec fn secret_public_key(secret_key: Seq<char>) -> Option<Seq<u8>>;

/// Whether `is_valid_staking_key` of near-crypto holds of the Ed25519 public
/// key `public_key`: whether its 32 bytes are a point of the curve, of prime
/// order.
pub uninterp spec fn ed25519_key_sound(public_key: Seq<u8>) -> bool;

/// The signature that `SecretKey::sign` of near-crypto makes of `data` with
/// the secret key that `secret_key` writes out, in serialized form.
pub uninterp spec fn signed_by(secret_key: Seq<char>, data: Seq<u8>) -> Seq<u8>;

/// Whether the secret key that `secret_key` writes out can sign `data`: the
/// text is a secret key, an Ed25519 key has a sound public half, and for a
/// secp256k1 key the data are 32 bytes.
pub open spec fn can_sign(secret_key: Seq<char>, data: Seq<u8>) -> bool {
    match secret_public_key(secret_key) {
        Some(key) => {
            &&& key.len() > 0
            &&& key[0] == 0 ==> ed25519_key_sound(key.skip(1))
            &&& key[0] != 0 ==> data.len() == 32
        },
        None => false,
    }
}

/// Calls `near_crypto::SecretKey::public_key` on the key that
/// `SecretKey::from_str` reads from the text. Believed: the answer depends
/// on the text alone. Neither call panics.
#[verifier::external_body]
pub(crate) fn public_key_of_secret(secret_key: &String) -> (key: Option<Vec<u8>>)
    ensures
        match key {
            Some(found) => secret_public_key(secret_key@) == Some(found@),
            None => secret_public_key(secret_key@) is None,
        },
{
    match secret_key.parse::<near_crypto::SecretKey>() {
        Ok(key) => borsh::BorshSerialize::try_to_vec(&key.public_key()).ok(),
        Err(_) => None,
    }
}

/// Calls `near_crypto::key_conversion::is_valid_staking_key` on the Ed25519
/// public key made of the 32 bytes by `ED25519PublicKey::try_from`.
/// Believed: the answer depends on the bytes alone.
#[verifier::external_body]
pub(crate) fn ed25519_key_check(public_key: &Vec<u8>) -> (sound: bool)
    requires
        public_key@.len() == 32,
    ensures
        sound == ed25519_key_sound(public_key@),
{
    match near_crypto::ED25519PublicKey::try_from(public_key.as_slice()) {
        Ok(key) => near_crypto::key_conversion::is_valid_staking_key(
            &near_crypto::PublicKey::ED25519(key),
        ),
        Err(_) => false,
    }
}

/// Calls `near_crypto::SecretKey::sign` with the key that
/// `SecretKey::from_str` reads from the text. Believed: the signature
/// depends on the text and the data alone, as both curves sign without
/// chance, and it has the form of a serialized signature. The call panics
/// where the public half of an Ed25519 key is no point of the curve, and
/// where data for a secp256k1 key are not 32 bytes; `requires` leaves both
/// out, the first by asking for a point of prime order.
#[verifier::external_body]
pub(crate) fn sign_with(secret_key: &String, data: &Vec<u8>) -> (signature: Vec<u8>)
    requires
        can_sign(secret_key@, data@),
    ensures
        signature@ == signed_by(secret_key@, data@),
        is_signature(signature@),
{
    match secret_key.parse::<near_crypto::SecretKey>() {
        Ok(key) => borsh::BorshSerialize::try_to_vec(&key.sign(data)).unwrap_or_default(),
        Err(_) => Vec::new(),
    }
}

} // verus!
