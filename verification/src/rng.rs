use rand::Rng;
use vstd::prelude::*;

verus! {

/// Relies on rand's `Rng::gen_range` on the thread-local generator: the value
/// drawn from `0..n` is below `n`. It panics only on an empty range, which the
/// precondition rules out.
#[verifier::external_body]
pub(crate) fn rand_index(n: usize) -> (r: usize)
    requires
        0 < n,
    ensures
        r < n,
{
    rand::thread_rng().gen_range(0..n)
}

/// Relies on rand's `Rng::gen_ratio` on the thread-local generator: true with
/// probability `numer/denom`, guaranteed false when `numer == 0` and true when
/// `numer == denom`. It panics only when `denom == 0` or `numer > denom`,
/// which the precondition rules out.
#[verifier::external_body]
pub(crate) fn rand_ratio(numer: u32, denom: u32) -> (r: bool)
    requires
        0 < denom,
        numer <= denom,
    ensures
        numer == 0 ==> r == false,
        numer == denom ==> r == true,
{
    rand::thread_rng().gen_ratio(numer, denom)
}

}
