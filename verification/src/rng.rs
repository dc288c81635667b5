use vstd::prelude::*;

verus! {

/// Relies on `rand::Rng::gen_range` on a `rand::thread_rng()` generator:
/// a uniform draw from `[0, n)`; the call panics only on an empty range,
/// which the precondition rules out.
#[verifier::external_body]
pub(crate) fn rand_index(n: usize) -> (r: usize)
    requires
        1 <= n,
    ensures
        r < n,
{
    rand::Rng::gen_range(&mut rand::thread_rng(), 0, n)
}

/// Relies on `rand::Rng::gen_range` on a `rand::thread_rng()` generator:
/// a uniform draw from `[0, n)`; the call panics only on an empty range,
/// which the precondition rules out.
#[verifier::external_body]
pub(crate) fn rand_below(n: u64) -> (r: u64)
    requires
        1 <= n,
    ensures
        r < n,
{
    rand::Rng::gen_range(&mut rand::thread_rng(), 0, n)
}

/// Relies on `rand::random`: a uniform 32-bit draw.
#[verifier::external_body]
pub(crate) fn rand_u32() -> u32 {
    rand::random()
}

/// A Bernoulli draw: true with probability `rate / 2^32`, for a rate given
/// as a fixed-point fraction of [`crate::population::RATE_ONE`].
pub(crate) fn coin(rate: u64) -> bool {
    (rand_u32() as u64) < rate
}

/// Relies on `slow_nn::Connection::new`: a freshly created connection
/// carries a random initial weight drawn from the library's small starting
/// range; only the bit pattern of that weight is kept.
#[verifier::external_body]
pub(crate) fn random_weight_bits() -> u64 {
    slow_nn::Connection::new(0, 0).weight.to_bits()
}

/// A fresh connection weight: the magnitude drawn through the host's
/// random source, under a random sign, so new weights come from a small
/// symmetric interval around zero and inhibitory connections arise as
/// readily as excitatory ones. (An IEEE-754 double is negated by flipping
/// its sign bit.)
pub(crate) fn signed_weight_bits() -> u64 {
    let magnitude = random_weight_bits();
    if rand_u32() & 1 == 1 {
        magnitude ^ 0x8000_0000_0000_0000u64
    } else {
        magnitude
    }
}

} // verus!
