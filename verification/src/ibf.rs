//! Levels of the incremental Bloom filters used to reconcile edge sets.

use vstd::prelude::*;

verus! {

/// Smallest level of an incremental Bloom filter that peers exchange.
pub const MIN_IBF_LEVEL: u64 = 10;

/// Largest level of an incremental Bloom filter that peers exchange.
pub const MAX_IBF_LEVEL: u64 = 17;

/// A level of an incremental Bloom filter. Levels from 10 to 17 are valid.
#[derive(Clone, Copy, Debug, PartialEq, Eq, Structural)]
pub struct ValidIBFLevel(pub u64);

impl ValidIBFLevel {
    /// Whether `level` lies in the valid range.
    pub open spec fn valid_level(level: int) -> bool {
        MIN_IBF_LEVEL <= level <= MAX_IBF_LEVEL
    }

    /// The next level, if this level has one and it is valid.
    pub fn inc(&self) -> (next: Option<ValidIBFLevel>)
        ensures
            Self::valid_level(self.0 + 1) ==> next == Some(ValidIBFLevel((self.0 + 1) as u64)),
            !Self::valid_level(self.0 + 1) ==> next.is_none(),
    {
        if self.0 >= MIN_IBF_LEVEL - 1 && self.0 < MAX_IBF_LEVEL {
            Some(ValidIBFLevel(self.0 + 1))
        } else {
            None
        }
    }

    /// Whether this level lies in the valid range.
    pub fn is_valid(&self) -> (valid: bool)
        ensures
            valid == Self::valid_level(self.0 as int),
    {
        self.0 >= MIN_IBF_LEVEL && self.0 <= MAX_IBF_LEVEL
    }
}

} // verus!
