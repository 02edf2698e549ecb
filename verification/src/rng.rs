use vstd::prelude::*;

verus! {

/// Relies on rand's `Rng::gen_range` over `0..n` (through `thread_rng`): it
/// returns a value of the half-open range, and panics only when the range is
/// empty, which the precondition rules out. Nothing more is assumed of the
/// value: callers must hold for every outcome below `n`.
#[verifier::external_body]
pub(crate) fn rand_below(n: usize) -> (r: usize)
    requires
        n >= 1,
    ensures
        r < n,
{
    rand::Rng::gen_range(&mut rand::thread_rng(), 0..n)
}

} // verus!
