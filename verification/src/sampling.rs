//! Choosing at random, by the `rand` crate. Nothing is proved of that crate
//! here; the contract of the function that calls it is believed.

use rand::seq::IteratorRandom;
use rand::thread_rng;
use vstd::prelude::*;

verus! {

/// `picked` are entries of `candidates` taken from `picked.len()` different
/// places.
pub open spec fn taken_from(picked: Seq<usize>, candidates: Seq<usize>) -> bool {
    exists|places: Seq<int>|
        {
            &&& places.len() == picked.len()
            &&& places.no_duplicates()
            &&& forall|k: int|
                0 <= k < places.len() ==> 0 <= #[trigger] places[k] < candidates.len()
                    && picked[k] == candidates[places[k]]
        }
}

/// Calls `IteratorRandom::choose_multiple` on the entries of `candidates`,
/// with the generator that `rand::thread_rng` gives. Believed of every
/// outcome: `amount` entries come back, taken from different places of the
/// list. No more are asked for than the list holds, so that the vector for
/// the result can be had.
#[verifier::external_body]
pub(crate) fn pick_some(candidates: &Vec<usize>, amount: usize) -> (picked: Vec<usize>)
    requires
        amount <= candidates@.len(),
    ensures
        picked@.len() == amount,
        taken_from(picked@, candidates@),
{
    candidates.iter().copied().choose_multiple(&mut thread_rng(), amount)
}

} // verus!
