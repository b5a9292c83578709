//! The random number generator the library draws pivots and initial
//! centers from, and the one call it makes into it.
use vstd::prelude::*;
use rand::rngs::StdRng;

verus! {

/// The standard seedable generator of the `rand` crate. Values of it are
/// only carried through and handed to `rand`.
#[verifier::external_type_specification]
#[verifier::external_body]
pub struct ExStdRng(rand::rngs::StdRng);

/// Relies on `rand::seq::index::sample`: it returns exactly `amount`
/// distinct indices from `0..length` (it panics when `amount > length`).
#[verifier::external_body]
pub(crate) fn sample_indices(rng: &mut StdRng, length: usize, amount: usize) -> (r: Vec<usize>)
    requires
        amount <= length,
    ensures
        r@.len() == amount,
        forall|i: int| 0 <= i < r@.len() ==> #[trigger] r@[i] < length,
        forall|i: int, j: int| 0 <= i < j < r@.len() ==> r@[i] != r@[j],
{
    rand::seq::index::sample(rng, length, amount).into_vec()
}

} // verus!
