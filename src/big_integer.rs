//! Arbitrary-precision integers as a sign and base-2^32 digits; the
//! arithmetic on digits is done by `num`'s `BigUint`.
use vstd::prelude::*;

verus! {

/// The value of little-endian base-2^32 digits.
pub open spec fn digits_value(ds: Seq<u32>) -> nat
    decreases ds.len(),
{
    if ds.len() == 0 {
        0
    } else {
        ds[0] as nat + 4294967296 * digits_value(ds.subrange(1, ds.len() as int))
    }
}

/// An arbitrary-precision integer: a sign and the magnitude's base-2^32
/// digits, least significant first. Zero may carry either sign.
#[derive(Debug, PartialEq, Eq)]
pub struct BigInteger {
    pub negative: bool,
    pub digits: Vec<u32>,
}

impl BigInteger {
    /// The integer this value stands for.
    pub open spec fn value(&self) -> int {
        if self.negative {
            -(digits_value(self.digits@) as int)
        } else {
            digits_value(self.digits@) as int
        }
    }
}

/// Relies on `BigUint % u64` (which divides by a non-zero `u64`) and on
/// `BigUint::iter_u64_digits` (the remainder, below `m`, has at most one
/// 64-bit digit, and none when it is zero).
#[verifier::external_body]
pub(crate) fn digits_rem(ds: &Vec<u32>, m: u64) -> (r: u64)
    requires
        m > 0,
    ensures
        r as int == digits_value(ds@) as int % (m as int),
{
    (num::BigUint::new(ds.clone()) % m).iter_u64_digits().next().unwrap_or(0)
}

/// Relies on `BigUint * u64`, read back with `BigUint::to_u32_digits`.
#[verifier::external_body]
pub(crate) fn digits_mul_small(ds: &Vec<u32>, k: u64) -> (r: Vec<u32>)
    ensures
        digits_value(r@) == digits_value(ds@) * k,
{
    (num::BigUint::new(ds.clone()) * k).to_u32_digits()
}

/// Relies on `BigUint + BigUint`, read back with `BigUint::to_u32_digits`.
#[verifier::external_body]
pub(crate) fn digits_add(a: &Vec<u32>, b: &Vec<u32>) -> (r: Vec<u32>)
    ensures
        digits_value(r@) == digits_value(a@) + digits_value(b@),
{
    (num::BigUint::new(a.clone()) + num::BigUint::new(b.clone())).to_u32_digits()
}

} // verus!
