//! What the library takes from the random number generator.

use turborand::rng::AtomicRng;
use turborand::TurboRand;
use vstd::prelude::*;

verus! {

/// The generator `turborand::rng::AtomicRng`, carried through as an opaque
/// value.
#[verifier::external_type_specification]
#[verifier::external_body]
pub struct ExAtomicRng(AtomicRng);

/// Calls `TurboRand::sample_iter` on the indices below `len`. Trusted: with
/// nothing to sample from it yields nothing, and otherwise one of the indices.
#[verifier::external_body]
pub(crate) fn sample_index(rng: &AtomicRng, len: usize) -> (r: Option<usize>)
    ensures
        len == 0 ==> r is None,
        len > 0 ==> r is Some && r.unwrap() < len,
{
    rng.sample_iter(0..len)
}

/// Calls `TurboRand::sample_multiple_iter` on the indices below `len`.
/// Trusted: it yields `amount` indices, or all of them where there are fewer,
/// and none of them twice.
#[verifier::external_body]
pub(crate) fn sample_indices(rng: &AtomicRng, len: usize, amount: usize) -> (r: Vec<usize>)
    requires
        amount <= u16::MAX,
    ensures
        r@.len() == if amount <= len { amount } else { len },
        forall|i: int| 0 <= i < r@.len() ==> #[trigger] r@[i] < len,
        r@.no_duplicates(),
{
    rng.sample_multiple_iter(0..len, amount)
}

/// Calls `TurboRand::u32` on the range from `low` up to, and not including,
/// `high`. Trusted: the number lies in that range.
#[verifier::external_body]
pub(crate) fn random_u32(rng: &AtomicRng, low: u32, high: u32) -> (r: u32)
    requires
        low < high,
    ensures
        low <= r < high,
{
    rng.u32(low..high)
}

/// Calls `TurboRand::u8` on the range from `low` up to, and not including,
/// `high`. Trusted: the number lies in that range.
#[verifier::external_body]
pub(crate) fn random_u8(rng: &AtomicRng, low: u8, high: u8) -> (r: u8)
    requires
        low < high,
    ensures
        low <= r < high,
{
    rng.u8(low..high)
}

} // verus!
