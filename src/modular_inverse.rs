//! Modular inverse through the extended Euclidean algorithm.
use vstd::arithmetic::div_mod::*;
use vstd::arithmetic::mul::*;
use vstd::prelude::*;

use crate::gcd::{gcd_extended1, gcd_spec, lemma_divides_combination, lemma_gcd_divides};

verus! {

/// `x` is a multiplicative inverse of `a` modulo `m`.
pub open spec fn is_inverse(a: int, x: int, m: int) -> bool {
    (a * x) % m == 1int % m
}

/// Where `gcd(a mod m, m) != 1`, no integer is an inverse of `a` modulo `m`.
pub proof fn lemma_no_inverse(a: int, m: int, x: int)
    requires
        m > 0,
        gcd_spec((a % m) as nat, m as nat) != 1,
    ensures
        !is_inverse(a, x, m),
{
    let ar = a % m;
    let g = gcd_spec(ar as nat, m as nat);
    lemma_mod_bound(a, m);
    lemma_gcd_divides(ar as nat, m as nat);
    if is_inverse(a, x, m) {
        assert(m >= 2) by {
            if m == 1 {
                assert(ar == 0);
                assert(gcd_spec(0, 1) == gcd_spec(1, 0));
            }
        }
        assert(g >= 2);
        assert(1int % m == 1) by {
            lemma_small_mod(1, m as nat);
        }
        lemma_fundamental_div_mod(a, m);
        // g divides a, hence a * x
        lemma_divides_combination(m, ar, a / m, g as int);
        assert(m * (a / m) + ar == (a / m) * m + ar) by {
            lemma_mul_is_commutative(m, a / m);
        }
        lemma_divides_combination(a, 0, x, g as int);
        lemma_fundamental_div_mod(x * a, m);
        let k = (x * a) / m;
        assert(x * a == a * x) by {
            lemma_mul_is_commutative(x, a);
        }
        lemma_divides_combination(m, x * a, -k, g as int);
        assert(-k * m + x * a == 1) by (nonlinear_arith)
            requires
                x * a == m * k + 1,
        ;
        lemma_small_mod(1, g);
    }
}

/// The inverse of `a` modulo `m` in `[0, m)`, or `None` where
/// `gcd(a, m) != 1` and no inverse exists.
pub fn modular_inverse_extended_gcd(a: i64, m: i64) -> (r: Option<i64>)
    requires
        m > 0,
    ensures
        r.is_some() <==> gcd_spec((a % m) as nat, m as nat) == 1,
        r matches Some(x) ==> 0 <= x < m && is_inverse(a as int, x as int, m as int),
        r.is_none() ==> forall|x: int| !is_inverse(a as int, x, m as int),
{
    let ar = match a.checked_rem_euclid(m) {
        Some(v) => v,
        None => 0,
    };
    assert(ar == a % m);
    let ((x, y), g) = gcd_extended1(ar, m);
    if g == 1 {
        let xn = match x.checked_rem_euclid(m) {
            Some(v) => v,
            None => 0,
        };
        assert(xn == x % m);
        proof {
            lemma_fundamental_div_mod(a as int, m as int);
            let q = a as int / m as int;
            let k = q * x - y;
            assert(a * x == m * k + 1) by (nonlinear_arith)
                requires
                    a == m * q + ar,
                    ar * x + m * y == 1,
                    k == q * x - y,
            ;
            lemma_mod_multiples_vanish(k, 1, m as int);
            lemma_mul_mod_noop_general(a as int, x as int, m as int);
        }
        Some(xn)
    } else {
        proof {
            assert forall|x: int| !is_inverse(a as int, x, m as int) by {
                lemma_no_inverse(a as int, m as int, x);
            }
        }
        None
    }
}

/// An inverse modulo `m` exists only where `gcd(a mod m, m) == 1`.
pub proof fn lemma_inverse_coprime(a: int, x: int, m: int)
    requires
        m > 0,
        is_inverse(a, x, m),
    ensures
        gcd_spec((a % m) as nat, m as nat) == 1,
{
    if gcd_spec((a % m) as nat, m as nat) != 1 {
        lemma_no_inverse(a, m, x);
    }
}

} // verus!
