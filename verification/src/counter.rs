//! The threat counter: a `u16`, with its identities taken from `num_traits`.

use vstd::prelude::*;

verus! {

/// The integer type that counts the queens attacking one square.
pub type Counter = u16;

/// The largest board side for which `Counter` can hold `side - 1`.
pub const MAX_SIDE: usize = 65536;

/// Calls `num_traits::Zero::zero` for `u16`, which returns the literal `0`.
#[verifier::external_body]
pub(crate) fn counter_zero() -> (z: Counter)
    ensures
        z == 0,
{
    <Counter as num_traits::Zero>::zero()
}

/// Calls `num_traits::One::one` for `u16`, which returns the literal `1`.
#[verifier::external_body]
pub(crate) fn counter_one() -> (o: Counter)
    ensures
        o == 1,
{
    <Counter as num_traits::One>::one()
}

/// Calls `num_traits::Zero::is_zero` for `u16`, which compares the value with `0`.
#[verifier::external_body]
pub(crate) fn counter_is_zero(x: &Counter) -> (b: bool)
    ensures
        b == (*x == 0),
{
    num_traits::Zero::is_zero(x)
}

} // verus!
