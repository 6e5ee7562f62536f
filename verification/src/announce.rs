//! Accounts and the announcements that say at which peer an account lives.

use vstd::prelude::*;
use crate::bytes::{bytes_copy, bytes_eq};
use crate::keys::{CryptoHash, PeerId, Signature};

verus! {

/// The name of an account, held as its bytes.
#[derive(Debug, PartialEq, Eq, Hash)]
pub struct AccountId {
    name: Vec<u8>,
}

impl View for AccountId {
    type V = Seq<u8>;

    closed spec fn view(&self) -> Seq<u8> {
        self.name@
    }
}

impl Clone for AccountId {
    fn clone(&self) -> (copy: Self)
        ensures
            copy@ == self@,
    {
        AccountId { name: bytes_copy(&self.name) }
    }
}

impl AccountId {
    /// The account with the given name.
    pub fn new(name: Vec<u8>) -> (account: AccountId)
        ensures
            account@ == name@,
    {
        AccountId { name }
    }

    /// The bytes of the name.
    pub fn as_bytes(&self) -> (bytes: &Vec<u8>)
        ensures
            bytes@ == self@,
    {
        &self.name
    }

    /// Whether this account is `other`.
    pub fn same(&self, other: &AccountId) -> (same: bool)
        ensures
            same == (self@ == other@),
    {
        bytes_eq(&self.name, &other.name)
    }
}

/// An announcement as a value.
pub struct AnnounceView {
    pub account_id: Seq<u8>,
    pub peer_id: Seq<u8>,
    pub epoch_id: Seq<u8>,
    pub signature: Seq<u8>,
}

/// The announcement that an account lives at a peer during an epoch, signed
/// with the account's key.
#[derive(Debug, PartialEq, Eq, Hash)]
pub struct AnnounceAccount {
    /// The account that is announced.
    pub account_id: AccountId,
    /// The peer of the owner of the account.
    pub peer_id: PeerId,
    /// The epoch for which the announcement holds.
    pub epoch_id: CryptoHash,
    /// The signature with the account's key.
    pub signature: Signature,
}

impl View for AnnounceAccount {
    type V = AnnounceView;

    open spec fn view(&self) -> AnnounceView {
        AnnounceView {
            account_id: self.account_id@,
            peer_id: self.peer_id@,
            epoch_id: self.epoch_id@,
            signature: self.signature@,
        }
    }
}

impl Clone for AnnounceAccount {
    fn clone(&self) -> (copy: Self)
        ensures
            copy@ == self@,
    {
        AnnounceAccount {
            account_id: self.account_id.clone(),
            peer_id: self.peer_id.dup(),
            epoch_id: self.epoch_id.dup(),
            signature: self.signature.dup(),
        }
    }
}

/// The announcements of a list as values.
pub open spec fn announce_views(list: Seq<AnnounceAccount>) -> Seq<AnnounceView> {
    Seq::new(list.len(), |i: int| list[i]@)
}

} // verus!
