//! Classical number-theory algorithms over machine integers, and a
//! residue-number-system big integer reconstructed with Garner's algorithm.
use vstd::prelude::*;

pub mod big_integer;
pub mod binary_exponentiation;
pub mod factorization;
pub mod fibonacci;
pub mod garners_algorithm;
pub mod gcd;
pub mod geometric_progression;
pub mod linear_diophantine;
pub mod modular_inverse;
pub mod primality;
pub mod prime;

verus! {

} // verus!
