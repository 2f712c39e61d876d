//! The pseudo-random generator the searches draw from, declared for the
//! verifier, and the one trusted call into it.

use vstd::prelude::*;
use rand::RngExt;

verus! {

/// The PCG generator `rand_pcg::Mcg128Xsl64`, opaque to the verifier.
#[verifier::external_type_specification]
#[verifier::external_body]
pub struct ExMcg128Xsl64(rand_pcg::Mcg128Xsl64);

/// Relies on rand's `RngExt::random_range` over `0..n`: it returns a value
/// of the range and panics only when the range is empty, which the
/// precondition rules out.  Nothing is assumed about which value comes back.
#[verifier::external_body]
pub(crate) fn rand_below(rng: &mut rand_pcg::Mcg128Xsl64, n: usize) -> (r: usize)
    requires
        n >= 1,
    ensures
        r < n,
{
    rng.random_range(0..n)
}

} // verus!
