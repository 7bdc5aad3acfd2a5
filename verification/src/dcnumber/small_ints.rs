//! Small integers.
use super::digits::{digits_value, pow10};
use super::unsigned::{from_u64, UnsignedDCNumber};
use vstd::prelude::*;

verus! {

/// The integer `n` as a number.
#[inline(always)]
pub fn interned(n: u8) -> (r: UnsignedDCNumber)
    ensures
        r.wf(),
        r.frac() == 0,
        digits_value(r@.0) == n,
        r@.0.len() <= 3,
{
    let r = from_u64(n as u64);
    proof {
        reveal_with_fuel(pow10, 4);
        super::digits::lemma_num_digits_bound(n as nat, 3);
    }
    r
}

/// The number zero.
#[inline(always)]
pub fn zero() -> (r: UnsignedDCNumber)
    ensures
        r.wf(),
        r@ == (seq![0u8], 1nat),
        digits_value(r@.0) == 0,
{
    super::unsigned::zero_number()
}

/// The number one.
#[inline(always)]
pub fn one() -> (r: UnsignedDCNumber)
    ensures
        r.wf(),
        r.frac() == 0,
        digits_value(r@.0) == 1,
{
    interned(1)
}

} // verus!
