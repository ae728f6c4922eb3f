//! The random draws of the genetic operators.
//!
//! Every draw comes from the thread-local generator, which is seeded by the
//! operating system: two runs differ, and nothing here can be predicted
//! beyond the range and shape of what comes back.

use vstd::prelude::*;
use rand::Rng;

verus! {

/// The greatest length of a sequence of which every position can be drawn
/// in one sample.
pub const MAX_FULL_SAMPLE: usize = 0xffff_ffff;

/// Draws one number below `bound` with `Rng::gen_range(0, bound)`, which
/// returns a value of the half-open range and panics on an empty one.
#[verifier::external_body]
pub(crate) fn random_below(bound: usize) -> (drawn: usize)
    requires
        bound > 0,
    ensures
        drawn < bound,
{
    rand::thread_rng().gen_range(0, bound)
}

/// Draws `amount` positions of a sequence of `length` items with
/// `rand::seq::index::sample`: distinct indices below `length`, in random
/// order. The outside function panics when asked for more than there are,
/// and for a sequence longer than [`MAX_FULL_SAMPLE`] it expects to be
/// asked for fewer than there are.
#[verifier::external_body]
pub(crate) fn sample_indices(length: usize, amount: usize) -> (picked: Vec<usize>)
    requires
        amount <= length,
        amount < length || length <= MAX_FULL_SAMPLE,
    ensures
        picked@.len() == amount,
        picked@.no_duplicates(),
        forall|i: int| 0 <= i < picked@.len() ==> picked@[i] < length,
{
    rand::seq::index::sample(&mut rand::thread_rng(), length, amount).into_vec()
}

} // verus!
