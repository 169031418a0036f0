use vstd::prelude::*;

verus! {

/// Relies on rand::random_range over 0..n with the thread-local generator:
/// it returns a uniformly drawn value of the range, and panics only on an
/// empty range, which the precondition rules out. Nothing more can be
/// promised of a random draw.
#[verifier::external_body]
pub(crate) fn rand_index(n: usize) -> (r: usize)
    requires
        1 <= n,
    ensures
        r < n,
{
    rand::random_range(0..n)
}

} // verus!
