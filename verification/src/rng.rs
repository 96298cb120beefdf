use vstd::prelude::*;
use rand::Rng;

verus! {

/// Declares rand's standard generator so that it can live in fields and
/// signatures; its values are opaque here.
#[verifier::external_type_specification]
#[verifier::external_body]
pub struct ExStdRng(rand::rngs::StdRng);

/// Relies on rand's Rng::gen_range over `0..n`: it returns a uniformly
/// distributed value of that range and panics only when the range is empty,
/// which the precondition rules out.  Nothing is promised about which value
/// comes back.
#[verifier::external_body]
pub fn rng_below(rng: &mut rand::rngs::StdRng, n: u64) -> (r: u64)
    requires
        n > 0,
    ensures
        r < n,
{
    rng.gen_range(0..n)
}

} // verus!
